//! The decisions of an upload: which signatures to make, how a server's
//! answer counts, and how the answers of all servers make the result.
use vstd::prelude::*;

use crate::keys::PrivateKey;
use crate::signature::{ed25519_secret, sign, SigData, Signature};
use crate::ed25519::ed25519_signature;
use crate::cbor::signing_payload;
use crate::text::str_equals;
use crate::hardlink::bytes_equal;

verus! {

/// The reject reasons that mean that the server already has (or is
/// getting) an image in that directory.
pub open spec fn conflict_reason(reason: Seq<char>) -> bool {
    reason == "already_exists"@ || reason == "already_uploading_different_version"@
}

/// Whether a reject reason says that the directory is already taken.
pub fn is_conflict_reason(reason: &Option<String>) -> (res: bool)
    ensures
        res == (reason matches Some(r) && conflict_reason(r@)),
{
    match reason {
        Some(r) => str_equals(r.as_str(), "already_exists") || str_equals(
            r.as_str(),
            "already_uploading_different_version",
        ),
        None => false,
    }
}

/// How an address's answer to the upload request counts.
#[derive(Clone, Copy, Debug, PartialEq, Eq, Structural)]
pub enum AnswerOutcome {
    /// Settled: the address succeeded (`true`) or failed (`false`).
    Settled(bool),
    /// Accepted: the result waits for the end of the upload.
    AwaitCompletion,
}

/// The outcome of an answer: an accepted request waits for completion; a
/// rejected one succeeds only when conflicts are tolerated and the reason
/// is a conflict.
pub fn answer_outcome(accepted: bool, reason: &Option<String>, fail_on_conflict: bool) -> (res:
    AnswerOutcome)
    ensures
        accepted ==> res == AnswerOutcome::AwaitCompletion,
        !accepted ==> res == AnswerOutcome::Settled(
            !fail_on_conflict && (reason matches Some(r) && conflict_reason(r@)),
        ),
{
    if !accepted {
        if !fail_on_conflict && is_conflict_reason(reason) {
            AnswerOutcome::Settled(true)
        } else {
            AnswerOutcome::Settled(false)
        }
    } else {
        AnswerOutcome::AwaitCompletion
    }
}

/// The result of an accepted address once the upload ends: success when
/// completion was signalled and no connection failed.
pub fn completion_outcome(completion_signalled: bool, progress_ok: bool) -> (res: bool)
    ensures
        res == (completion_signalled && progress_ok),
{
    if completion_signalled {
        progress_ok
    } else {
        false
    }
}

/// A host succeeded when one of its addresses did.
pub fn host_result(address_results: &[bool]) -> (res: bool)
    ensures
        res == exists|i: int| 0 <= i < address_results@.len() && address_results@[i],
{
    let mut i: usize = 0;
    while i < address_results.len()
        invariant
            i <= address_results@.len(),
            forall|j: int| 0 <= j < i ==> !address_results@[j],
        decreases address_results@.len() - i,
    {
        if address_results[i] {
            return true;
        }
        i = i + 1;
    }
    false
}

/// The upload succeeded when every host did.
pub fn upload_result(host_results: &[bool]) -> (res: bool)
    ensures
        res == forall|i: int| 0 <= i < host_results@.len() ==> host_results@[i],
{
    let mut i: usize = 0;
    while i < host_results.len()
        invariant
            i <= host_results@.len(),
            forall|j: int| 0 <= j < i ==> host_results@[j],
        decreases host_results@.len() - i,
    {
        if !host_results[i] {
            return false;
        }
        i = i + 1;
    }
    true
}

/// Every target host had an address that succeeded.
pub open spec fn all_targets_succeeded(targets: Seq<Option<Vec<bool>>>) -> bool {
    forall|i: int|
        0 <= i < targets.len() ==> exists|j: int|
            0 <= j < (#[trigger] targets[i])->0@.len() && targets[i]->0@[j]
}

/// A target host counts as succeeded when any one of its addresses, at any
/// position, succeeded; the upload when every host did. So a single good
/// address rescues its host, and a single host whose addresses all failed
/// fails the upload.
pub proof fn lemma_all_targets_succeeded(targets: Seq<Option<Vec<bool>>>)
    ensures
        all_targets_succeeded(targets) <==> forall|i: int|
            0 <= i < targets.len() ==> exists|j: int|
                0 <= j < (#[trigger] targets[i])->0@.len() && targets[i]->0@[j],
        forall|i: int, j: int|
            #![trigger targets[i]->0@[j]]
            0 <= i < targets.len() && 0 <= j < targets[i]->0@.len() && targets[i]->0@[j]
                && (forall|k: int| 0 <= k < targets.len() && k != i ==> exists|l: int|
                0 <= l < (#[trigger] targets[k])->0@.len() && targets[k]->0@[l])
                ==> all_targets_succeeded(targets),
        forall|i: int|
            #![trigger targets[i]]
            0 <= i < targets.len() && (forall|j: int|
                0 <= j < targets[i]->0@.len() ==> !targets[i]->0@[j]) ==> !all_targets_succeeded(
                targets,
            ),
{
    assert forall|i: int, j: int|
        #![trigger targets[i]->0@[j]]
        0 <= i < targets.len() && 0 <= j < targets[i]->0@.len() && targets[i]->0@[j]
            && (forall|k: int| 0 <= k < targets.len() && k != i ==> exists|l: int|
            0 <= l < (#[trigger] targets[k])->0@.len() && targets[k]->0@[l])
            implies all_targets_succeeded(targets) by {
        assert forall|k: int| 0 <= k < targets.len() implies exists|l: int|
            0 <= l < (#[trigger] targets[k])->0@.len() && targets[k]->0@[l] by {
            if k == i {
                assert(targets[i]->0@[j]);
            }
        }
    }
}

/// The result of the whole upload from the outcome of each target host:
/// `None` where the host's name could not be resolved, else the result of
/// each of its addresses. A failed resolution fails the upload (`Err`);
/// otherwise it succeeds when every host had an address that succeeded.
pub fn upload_outcome(targets: &Vec<Option<Vec<bool>>>) -> (res: Result<bool, ()>)
    ensures
        (exists|i: int| 0 <= i < targets@.len() && #[trigger] targets@[i] is None) ==> res
            == Err::<bool, ()>(()),
        (forall|i: int| 0 <= i < targets@.len() ==> #[trigger] targets@[i] is Some) ==> res
            == Ok::<bool, ()>(all_targets_succeeded(targets@)),
        (forall|i: int| 0 <= i < targets@.len() ==> #[trigger] targets@[i] is Some) ==> (res
            matches Ok(b) && (b <==> forall|i: int|
            0 <= i < targets@.len() ==> exists|j: int|
                0 <= j < (#[trigger] targets@[i])->0@.len() && targets@[i]->0@[j])),
{
    let mut i: usize = 0;
    while i < targets.len()
        invariant
            i <= targets@.len(),
            forall|k: int| 0 <= k < i ==> #[trigger] targets@[k] is Some,
        decreases targets@.len() - i,
    {
        if targets[i].is_none() {
            return Err(());
        }
        i = i + 1;
    }
    let mut all = true;
    let mut k: usize = 0;
    while k < targets.len()
        invariant
            k <= targets@.len(),
            forall|m: int| 0 <= m < targets@.len() ==> #[trigger] targets@[m] is Some,
            all == forall|m: int|
                0 <= m < k ==> exists|j: int|
                    0 <= j < (#[trigger] targets@[m])->0@.len() && targets@[m]->0@[j],
        decreases targets@.len() - k,
    {
        match &targets[k] {
            Some(results) => {
                let ok = host_result(results.as_slice());
                all = all && ok;
            },
            None => {},
        }
        k = k + 1;
    }
    Ok(all)
}

/// The exit code of the upload command: 0 on success, 1 when a host
/// failed, 2 when the upload could not start.
pub fn exit_code(result: Result<bool, ()>) -> (res: i32)
    ensures
        res == match result {
            Ok(true) => 0i32,
            Ok(false) => 1i32,
            Err(()) => 2i32,
        },
{
    match result {
        Ok(true) => 0,
        Ok(false) => 1,
        Err(()) => 2,
    }
}

/// The signatures for one destination path.
#[derive(Debug)]
pub struct PathSignatures {
    pub path: String,
    pub signatures: Vec<Signature>,
}

/// `entry` holds, for its path, the signature of the image by each key.
pub open spec fn signed_with_keys(
    entry: PathSignatures,
    image: Seq<u8>,
    timestamp: u64,
    keys: Seq<PrivateKey>,
) -> bool {
    &&& entry.signatures@.len() == keys.len()
    &&& forall|k: int|
        0 <= k < keys.len() ==> (#[trigger] entry.signatures@[k]).bytes_view() == ed25519_signature(
            signing_payload(entry.path@, image, timestamp),
            ed25519_secret(keys[k]),
        )
}

/// `path` is the path of one of `entries`.
pub open spec fn path_listed(entries: Seq<PathSignatures>, path: Seq<char>) -> bool {
    exists|j: int| 0 <= j < entries.len() && #[trigger] entries[j].path@ == path
}

/// `path` is one of `paths`.
pub open spec fn path_given(paths: Seq<String>, path: Seq<char>) -> bool {
    exists|i: int| 0 <= i < paths.len() && #[trigger] paths[i]@ == path
}

fn find_path(entries: &Vec<PathSignatures>, path: &str) -> (found: bool)
    ensures
        found == path_listed(entries@, path@),
{
    let mut j: usize = 0;
    while j < entries.len()
        invariant
            j <= entries@.len(),
            forall|m: int| 0 <= m < j ==> entries@[m].path@ != path@,
        decreases entries@.len() - j,
    {
        if str_equals(entries[j].path.as_str(), path) {
            assert(entries@[j as int].path@ == path@);
            return true;
        }
        j = j + 1;
    }
    false
}

/// Signs the image once for each distinct destination path, in the order in
/// which the paths first occur, with every key.
pub fn sign_paths(paths: &Vec<String>, image: &[u8], timestamp: u64, keys: &[PrivateKey]) -> (res:
    Vec<PathSignatures>)
    requires
        forall|i: int| 0 <= i < keys@.len() ==> keys@[i] is Ed25519,
    ensures
        forall|a: int, b: int|
            0 <= a < b < res@.len() ==> res@[a].path@ != res@[b].path@,
        forall|i: int| 0 <= i < paths@.len() ==> path_listed(res@, #[trigger] paths@[i]@),
        forall|j: int| 0 <= j < res@.len() ==> path_given(paths@, #[trigger] res@[j].path@),
        forall|j: int|
            0 <= j < res@.len() ==> signed_with_keys(#[trigger] res@[j], image@, timestamp, keys@),
{
    let mut res: Vec<PathSignatures> = Vec::new();
    let mut i: usize = 0;
    while i < paths.len()
        invariant
            i <= paths@.len(),
            forall|k: int| 0 <= k < keys@.len() ==> keys@[k] is Ed25519,
            forall|a: int, b: int| 0 <= a < b < res@.len() ==> res@[a].path@ != res@[b].path@,
            forall|p: int| 0 <= p < i ==> path_listed(res@, #[trigger] paths@[p]@),
            forall|j: int|
                #![trigger res@[j]]
                0 <= j < res@.len() ==> exists|p: int|
                    0 <= p < i && #[trigger] res@[j].path@ == #[trigger] paths@[p]@,
            forall|j: int|
                0 <= j < res@.len() ==> signed_with_keys(
                    #[trigger] res@[j],
                    image@,
                    timestamp,
                    keys@,
                ),
        decreases paths@.len() - i,
    {
        let ghost before = res@;
        if !find_path(&res, paths[i].as_str()) {
            let data = SigData { path: paths[i].as_str(), image, timestamp };
            let signatures = sign(data, keys);
            res.push(PathSignatures { path: paths[i].clone(), signatures });
            proof {
                let n = before.len() as int;
                assert(res@[n].path@ == paths@[i as int]@);
                assert forall|p: int| 0 <= p < i + 1 implies path_listed(
                    res@,
                    #[trigger] paths@[p]@,
                ) by {
                    if p == i {
                        assert(res@[n].path@ == paths@[p]@);
                    } else {
                        let j = choose|j: int|
                            0 <= j < before.len() && #[trigger] before[j].path@ == paths@[p]@;
                        assert(res@[j] == before[j]);
                    }
                }
                assert forall|j: int| 0 <= j < res@.len() implies exists|p: int|
                    0 <= p < i + 1 && #[trigger] res@[j].path@ == #[trigger] paths@[p]@ by {
                    if j == n {
                        assert(res@[j].path@ == paths@[i as int]@);
                    } else {
                        assert(res@[j] == before[j]);
                        let p = choose|p: int|
                            0 <= p < i && #[trigger] before[j].path@ == #[trigger] paths@[p]@;
                        assert(res@[j].path@ == paths@[p]@);
                    }
                }
                assert forall|j: int| 0 <= j < res@.len() implies signed_with_keys(
                    #[trigger] res@[j],
                    image@,
                    timestamp,
                    keys@,
                ) by {
                    if j < n {
                        assert(res@[j] == before[j]);
                    }
                }
                assert forall|a: int, b: int| 0 <= a < b < res@.len() implies res@[a].path@
                    != res@[b].path@ by {
                    if b == n {
                        assert(res@[a] == before[a]);
                    } else {
                        assert(res@[a] == before[a]);
                        assert(res@[b] == before[b]);
                    }
                }
            }
        } else {
            proof {
                assert forall|p: int| 0 <= p < i + 1 implies path_listed(
                    res@,
                    #[trigger] paths@[p]@,
                ) by {}
                assert forall|j: int| 0 <= j < res@.len() implies exists|p: int|
                    0 <= p < i + 1 && #[trigger] res@[j].path@ == #[trigger] paths@[p]@ by {
                    let p = choose|p: int|
                        0 <= p < i && #[trigger] res@[j].path@ == #[trigger] paths@[p]@;
                    assert(res@[j].path@ == paths@[p]@);
                }
            }
        }
        i = i + 1;
    }
    assert forall|j: int| 0 <= j < res@.len() implies path_given(paths@, #[trigger] res@[j].path@) by {
        let p = choose|p: int| 0 <= p < i && #[trigger] res@[j].path@ == #[trigger] paths@[p]@;
        assert(paths@[p]@ == res@[j].path@);
    }
    res
}

/// Where the block with hash `hash` of the uploaded image lies: the file
/// (its index among the image's files) and the byte offset in that file.
#[derive(Clone, Debug, PartialEq, Eq)]
pub struct BlockPointer {
    pub hash: Vec<u8>,
    pub file: usize,
    pub offset: u64,
}

/// The hash of block `k` of file `f`.
pub open spec fn block_hash(files: Seq<Vec<Vec<u8>>>, f: int, k: int) -> Seq<u8> {
    files[f]@[k]@
}

/// Block `k` of file `f` exists.
pub open spec fn valid_block(files: Seq<Vec<Vec<u8>>>, f: int, k: int) -> bool {
    0 <= f < files.len() && 0 <= k < files[f]@.len()
}

/// Block `k` of file `f` comes among the blocks before block `j` of file
/// `i` (files in order, the blocks of a file in order).
pub open spec fn block_before(files: Seq<Vec<Vec<u8>>>, f: int, k: int, i: int, j: int) -> bool {
    valid_block(files, f, k) && (f < i || (f == i && k < j))
}

/// Block `k` of file `f` is the last block, among those before block `j` of
/// file `i`, with its hash.
pub open spec fn last_with_hash(files: Seq<Vec<Vec<u8>>>, f: int, k: int, i: int, j: int) -> bool {
    &&& block_before(files, f, k, i, j)
    &&& forall|f2: int, k2: int|
        #![trigger block_hash(files, f2, k2)]
        block_before(files, f2, k2, i, j) && (f < f2 || (f == f2 && k < k2)) ==> block_hash(
            files,
            f2,
            k2,
        ) != block_hash(files, f, k)
}

/// `p` points at the last block, among those before block `j` of file `i`,
/// with `p`'s hash.
pub open spec fn points_at_last(
    files: Seq<Vec<Vec<u8>>>,
    block_size: u64,
    p: BlockPointer,
    i: int,
    j: int,
) -> bool {
    exists|k: int|
        #![trigger block_hash(files, p.file as int, k)]
        last_with_hash(files, p.file as int, k, i, j) && block_hash(files, p.file as int, k)
            == p.hash@ && p.offset == k * block_size
}

/// The table of `pointers` is right for the blocks before block `j` of file
/// `i`: one pointer per hash, to the last block with that hash.
pub open spec fn block_table_upto(
    files: Seq<Vec<Vec<u8>>>,
    block_size: u64,
    pointers: Seq<BlockPointer>,
    i: int,
    j: int,
) -> bool {
    &&& forall|a: int, b: int|
        0 <= a < b < pointers.len() ==> pointers[a].hash@ != pointers[b].hash@
    &&& forall|p: int|
        0 <= p < pointers.len() ==> points_at_last(files, block_size, #[trigger] pointers[p], i, j)
    &&& forall|f: int, k: int|
        #[trigger] block_before(files, f, k, i, j) ==> exists|p: int|
            0 <= p < pointers.len() && #[trigger] pointers[p].hash@ == block_hash(files, f, k)
}

fn find_pointer(pointers: &Vec<BlockPointer>, hash: &Vec<u8>) -> (res: Option<usize>)
    ensures
        match res {
            Some(p) => p < pointers@.len() && pointers@[p as int].hash@ == hash@,
            None => forall|p: int| 0 <= p < pointers@.len() ==> pointers@[p].hash@ != hash@,
        },
{
    let mut p: usize = 0;
    while p < pointers.len()
        invariant
            p <= pointers@.len(),
            forall|q: int| 0 <= q < p ==> pointers@[q].hash@ != hash@,
        decreases pointers@.len() - p,
    {
        if bytes_equal(&pointers[p].hash, hash) {
            return Some(p);
        }
        p = p + 1;
    }
    None
}

/// The table from block hash to block position of the uploaded image:
/// `files[f]` lists the block hashes of file `f`, and block `k` starts at
/// offset `k * block_size`. Where several blocks share a hash, the last one
/// (files in order, blocks in order) is kept. Every offset must fit in 64
/// bits.
pub fn block_pointers(files: &Vec<Vec<Vec<u8>>>, block_size: u64) -> (res: Vec<BlockPointer>)
    requires
        forall|f: int, k: int|
            #[trigger] valid_block(files@, f, k) ==> k * block_size <= u64::MAX,
    ensures
        block_table_upto(files@, block_size, res@, files@.len() as int, 0),
{
    let mut res: Vec<BlockPointer> = Vec::new();
    let mut i: usize = 0;
    while i < files.len()
        invariant
            i <= files@.len(),
            forall|f: int, k: int|
                #[trigger] valid_block(files@, f, k) ==> k * block_size <= u64::MAX,
            block_table_upto(files@, block_size, res@, i as int, 0),
        decreases files@.len() - i,
    {
        let mut j: usize = 0;
        while j < files[i].len()
            invariant
                i < files@.len(),
                j <= files@[i as int]@.len(),
                forall|f: int, k: int|
                    #[trigger] valid_block(files@, f, k) ==> k * block_size <= u64::MAX,
                block_table_upto(files@, block_size, res@, i as int, j as int),
            decreases files@[i as int]@.len() - j,
        {
            proof {
                assert(block_hash(files@, i as int, j as int) == files@[i as int]@[j as int]@);
                assert(valid_block(files@, i as int, j as int));
            }
            let offset = (j as u64) * block_size;
            let hash = files[i][j].clone();
            let ghost before = res@;
            let ghost h = hash@;
            match find_pointer(&res, &hash) {
                Some(p) => {
                    res.set(p, BlockPointer { hash, file: i, offset });
                    proof {
                        lemma_table_replace(files@, block_size, before, res@, p as int, i as int, j as int);
                    }
                },
                None => {
                    res.push(BlockPointer { hash, file: i, offset });
                    proof {
                        lemma_table_push(files@, block_size, before, res@, i as int, j as int);
                    }
                },
            }
            j = j + 1;
        }
        proof {
            lemma_table_next_file(files@, block_size, res@, i as int);
        }
        i = i + 1;
    }
    res
}

proof fn lemma_table_next_file(
    files: Seq<Vec<Vec<u8>>>,
    block_size: u64,
    pointers: Seq<BlockPointer>,
    i: int,
)
    requires
        0 <= i < files.len(),
        block_table_upto(files, block_size, pointers, i, files[i]@.len() as int),
    ensures
        block_table_upto(files, block_size, pointers, i + 1, 0),
{
    let n = files[i]@.len() as int;
    assert forall|f: int, k: int|
        block_before(files, f, k, i, n) == block_before(files, f, k, i + 1, 0) by {}
    assert forall|p: int| 0 <= p < pointers.len() implies points_at_last(
        files,
        block_size,
        #[trigger] pointers[p],
        i + 1,
        0,
    ) by {
        let q = pointers[p];
        let k = choose|k: int|
            #![trigger block_hash(files, q.file as int, k)]
            last_with_hash(files, q.file as int, k, i, n) && block_hash(files, q.file as int, k)
                == q.hash@ && q.offset == k * block_size;
        assert(last_with_hash(files, q.file as int, k, i + 1, 0));
    }
    assert forall|f: int, k: int|
        #[trigger] block_before(files, f, k, i + 1, 0) implies exists|q: int|
        0 <= q < pointers.len() && #[trigger] pointers[q].hash@ == block_hash(files, f, k) by {
        assert(block_before(files, f, k, i, n));
        let q = choose|q: int|
            0 <= q < pointers.len() && #[trigger] pointers[q].hash@ == block_hash(files, f, k);
        assert(pointers[q].hash@ == block_hash(files, f, k));
    }
}

proof fn lemma_table_replace(
    files: Seq<Vec<Vec<u8>>>,
    block_size: u64,
    before: Seq<BlockPointer>,
    after: Seq<BlockPointer>,
    p: int,
    i: int,
    j: int,
)
    requires
        valid_block(files, i, j),
        block_table_upto(files, block_size, before, i, j),
        0 <= p < before.len(),
        before[p].hash@ == block_hash(files, i, j),
        after == before.update(
            p,
            BlockPointer { hash: after[p].hash, file: i as usize, offset: after[p].offset },
        ),
        after[p].hash@ == block_hash(files, i, j),
        after[p].offset == j * block_size,
        after[p].file == i,
    ensures
        block_table_upto(files, block_size, after, i, j + 1),
{
    let h = block_hash(files, i, j);
    assert forall|a: int, b: int| 0 <= a < b < after.len() implies after[a].hash@
        != after[b].hash@ by {
        assert(after[a].hash@ == before[a].hash@);
        assert(after[b].hash@ == before[b].hash@);
    }
    assert(last_with_hash(files, i, j, i, j + 1));
    assert forall|q: int| 0 <= q < after.len() implies points_at_last(
        files,
        block_size,
        #[trigger] after[q],
        i,
        j + 1,
    ) by {
        if q == p {
            assert(block_hash(files, after[q].file as int, j) == after[q].hash@);
        } else {
            let e = before[q];
            assert(after[q] == e);
            let k = choose|k: int|
                #![trigger block_hash(files, e.file as int, k)]
                last_with_hash(files, e.file as int, k, i, j) && block_hash(files, e.file as int, k)
                    == e.hash@ && e.offset == k * block_size;
            assert(e.hash@ != h);
            assert(last_with_hash(files, e.file as int, k, i, j + 1));
        }
    }
    assert forall|f: int, k: int|
        #[trigger] block_before(files, f, k, i, j + 1) implies exists|q: int|
        0 <= q < after.len() && #[trigger] after[q].hash@ == block_hash(files, f, k) by {
        if f == i && k == j {
            assert(after[p].hash@ == block_hash(files, f, k));
        } else {
            assert(block_before(files, f, k, i, j));
            let q = choose|q: int|
                0 <= q < before.len() && #[trigger] before[q].hash@ == block_hash(files, f, k);
            if q == p {
                assert(after[p].hash@ == block_hash(files, f, k));
            } else {
                assert(after[q] == before[q]);
            }
        }
    }
}

proof fn lemma_table_push(
    files: Seq<Vec<Vec<u8>>>,
    block_size: u64,
    before: Seq<BlockPointer>,
    after: Seq<BlockPointer>,
    i: int,
    j: int,
)
    requires
        valid_block(files, i, j),
        block_table_upto(files, block_size, before, i, j),
        forall|q: int| 0 <= q < before.len() ==> before[q].hash@ != block_hash(files, i, j),
        after.len() == before.len() + 1,
        forall|q: int| 0 <= q < before.len() ==> after[q] == before[q],
        after[before.len() as int].hash@ == block_hash(files, i, j),
        after[before.len() as int].offset == j * block_size,
        after[before.len() as int].file == i,
    ensures
        block_table_upto(files, block_size, after, i, j + 1),
{
    let n = before.len() as int;
    let h = block_hash(files, i, j);
    assert forall|a: int, b: int| 0 <= a < b < after.len() implies after[a].hash@
        != after[b].hash@ by {
        assert(after[a] == before[a]);
        if b < n {
            assert(after[b] == before[b]);
        }
    }
    assert forall|f: int, k: int|
        #![trigger block_hash(files, f, k)]
        block_before(files, f, k, i, j) implies block_hash(files, f, k) != h by {
        let q = choose|q: int|
            0 <= q < before.len() && #[trigger] before[q].hash@ == block_hash(files, f, k);
    }
    assert(last_with_hash(files, i, j, i, j + 1));
    assert forall|q: int| 0 <= q < after.len() implies points_at_last(
        files,
        block_size,
        #[trigger] after[q],
        i,
        j + 1,
    ) by {
        if q == n {
            assert(block_hash(files, after[q].file as int, j) == after[q].hash@);
        } else {
            let e = before[q];
            assert(after[q] == e);
            let k = choose|k: int|
                #![trigger block_hash(files, e.file as int, k)]
                last_with_hash(files, e.file as int, k, i, j) && block_hash(files, e.file as int, k)
                    == e.hash@ && e.offset == k * block_size;
            assert(e.hash@ != h);
            assert(last_with_hash(files, e.file as int, k, i, j + 1));
        }
    }
    assert forall|f: int, k: int|
        #[trigger] block_before(files, f, k, i, j + 1) implies exists|q: int|
        0 <= q < after.len() && #[trigger] after[q].hash@ == block_hash(files, f, k) by {
        if f == i && k == j {
            assert(after[n].hash@ == block_hash(files, f, k));
        } else {
            assert(block_before(files, f, k, i, j));
            let q = choose|q: int|
                0 <= q < before.len() && #[trigger] before[q].hash@ == block_hash(files, f, k);
            assert(after[q] == before[q]);
        }
    }
}

} // verus!
