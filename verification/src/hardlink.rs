//! Choosing which already stored images may lend files to a new image, and
//! which files of the new image can be hardlinked from them.
use vstd::prelude::*;

verus! {

broadcast use vstd::seq_lib::group_to_multiset_ensures;

/// How many source images are consulted at most.
pub const MAX_SOURCES: usize = 37;

/// A stored directory state: its image id and the time of its newest
/// signature in milliseconds (0 when it has none).
#[derive(Clone, Debug)]
pub struct SourceState {
    pub image: Vec<u8>,
    pub newest: u64,
}

/// The time of the newest of `timestamps` (signature times in
/// milliseconds); 0 when there is none.
pub fn newest_signature(timestamps: &Vec<u64>) -> (res: u64)
    ensures
        forall|i: int| 0 <= i < timestamps@.len() ==> timestamps@[i] <= res,
        timestamps@.len() == 0 ==> res == 0,
        timestamps@.len() > 0 ==> exists|i: int| 0 <= i < timestamps@.len() && timestamps@[i] == res,
{
    let mut res: u64 = 0;
    let mut i: usize = 0;
    while i < timestamps.len()
        invariant
            i <= timestamps@.len(),
            forall|k: int| 0 <= k < i ==> timestamps@[k] <= res,
            i == 0 ==> res == 0,
            i > 0 ==> exists|k: int| 0 <= k < i && timestamps@[k] == res,
        decreases timestamps@.len() - i,
    {
        if i == 0 || timestamps[i] > res {
            res = timestamps[i];
        }
        i = i + 1;
    }
    res
}

/// A file of an image index.
#[derive(Clone, Debug, PartialEq, Eq)]
pub struct FileEntry {
    pub path: String,
    pub exe: bool,
    pub size: u64,
    pub hashes: Vec<u8>,
}

/// An entry that a source image has at the path of a file being linked:
/// the source directory and, when it is a readable file, its description.
#[derive(Clone, Debug)]
pub struct Candidate {
    pub source: String,
    pub entry: Option<FileEntry>,
}

/// A file of the new image that can be hardlinked from a source directory.
#[derive(Clone, Debug, PartialEq, Eq)]
pub struct Hardlink {
    pub source: String,
    pub path: String,
    pub exe: bool,
    pub size: u64,
    pub hashes: Vec<u8>,
}

/// Calls `slice::sort_unstable_by_key` with the first field, reversed, as
/// the key. Claimed, as std documents it: the result holds the same items
/// and is ordered by that field, greatest first (equal keys in any order).
#[verifier::external_body]
fn sort_newest_first(items: &mut Vec<(u64, usize)>)
    ensures
        final(items)@.to_multiset() == old(items)@.to_multiset(),
        forall|a: int, b: int|
            0 <= a < b < final(items)@.len() ==> final(items)@[a].0 >= final(items)@[b].0,
{
    items.sort_unstable_by_key(|item| std::cmp::Reverse(item.0));
}

/// Compares two byte strings.
pub fn bytes_equal(a: &Vec<u8>, b: &Vec<u8>) -> (res: bool)
    ensures
        res == (a@ == b@),
{
    if a.len() != b.len() {
        return false;
    }
    let mut i: usize = 0;
    while i < a.len()
        invariant
            a@.len() == b@.len(),
            i <= a@.len(),
            forall|j: int| 0 <= j < i ==> a@[j] == b@[j],
        decreases a@.len() - i,
    {
        if a[i] != b[i] {
            return false;
        }
        i = i + 1;
    }
    assert(a@ =~= b@);
    true
}

/// The image of one of the `selected` states equals the image of state `i`.
pub open spec fn image_selected(states: Seq<SourceState>, selected: Seq<usize>, i: int) -> bool {
    exists|j: int|
        0 <= j < selected.len() && #[trigger] states[selected[j] as int].image@ == states[i].image@
}

/// Some item of `sorted` carries the index `m`.
pub open spec fn index_present(sorted: Seq<(u64, usize)>, m: int) -> bool {
    exists|p: int| 0 <= p < sorted.len() && #[trigger] sorted[p].1 == m
}

fn image_taken(states: &Vec<SourceState>, selected: &Vec<usize>, image: &Vec<u8>) -> (res: bool)
    requires
        forall|j: int| 0 <= j < selected@.len() ==> selected@[j] < states@.len(),
    ensures
        res == exists|j: int|
            0 <= j < selected@.len() && #[trigger] states@[selected@[j] as int].image@ == image@,
{
    let mut j: usize = 0;
    while j < selected.len()
        invariant
            j <= selected@.len(),
            forall|m: int| 0 <= m < selected@.len() ==> selected@[m] < states@.len(),
            forall|m: int| 0 <= m < j ==> states@[selected@[m] as int].image@ != image@,
        decreases selected@.len() - j,
    {
        if bytes_equal(&states[selected[j]].image, image) {
            return true;
        }
        j = j + 1;
    }
    false
}

/// Picks the source states to consult: newest first, one per image (the
/// newest of each), at most `MAX_SOURCES`.
pub fn select_sources(states: &Vec<SourceState>) -> (res: Vec<usize>)
    ensures
        res@.len() <= MAX_SOURCES,
        forall|j: int| 0 <= j < res@.len() ==> res@[j] < states@.len(),
        forall|a: int, b: int|
            0 <= a < b < res@.len() ==> states@[res@[a] as int].image@ != states@[res@[b]
                as int].image@,
        forall|a: int, b: int|
            0 <= a < b < res@.len() ==> states@[res@[a] as int].newest >= states@[res@[b]
                as int].newest,
        forall|i: int|
            #![trigger states@[i]]
            0 <= i < states@.len() ==> if image_selected(states@, res@, i) {
                exists|j: int|
                    0 <= j < res@.len() && #[trigger] states@[res@[j] as int].image@
                        == states@[i].image@ && states@[res@[j] as int].newest
                        >= states@[i].newest
            } else {
                res@.len() == MAX_SOURCES && forall|j: int|
                    0 <= j < res@.len() ==> states@[res@[j] as int].newest >= states@[i].newest
            },
{
    let n = states.len();
    let mut items: Vec<(u64, usize)> = Vec::new();
    let mut i: usize = 0;
    while i < n
        invariant
            n == states@.len(),
            i <= n,
            items@.len() == i,
            forall|m: int| 0 <= m < i ==> #[trigger] items@[m] == (states@[m].newest, m as usize),
        decreases n - i,
    {
        items.push((states[i].newest, i));
        i = i + 1;
    }
    let ghost unsorted = items@;
    sort_newest_first(&mut items);
    let ghost sorted = items@;
    proof {
        assert(sorted.to_multiset().len() == sorted.len());
        assert(unsorted.to_multiset().len() == unsorted.len());
        assert forall|p: int| 0 <= p < sorted.len() implies #[trigger] sorted[p].1 < n
            && sorted[p].0 == states@[sorted[p].1 as int].newest by {
            assert(sorted.contains(sorted[p]));
            assert(sorted.to_multiset().count(sorted[p]) > 0);
            assert(unsorted.to_multiset().count(sorted[p]) > 0);
            assert(unsorted.contains(sorted[p]));
            let m = choose|m: int| 0 <= m < unsorted.len() && unsorted[m] == sorted[p];
            assert(unsorted[m] == (states@[m].newest, m as usize));
        }
        assert forall|m: int| 0 <= m < n implies #[trigger] index_present(sorted, m) by {
            assert(unsorted[m] == (states@[m].newest, m as usize));
            assert(unsorted.contains(unsorted[m]));
            assert(unsorted.to_multiset().count(unsorted[m]) > 0);
            assert(sorted.to_multiset().count(unsorted[m]) > 0);
            assert(sorted.contains(unsorted[m]));
            let p = choose|p: int| 0 <= p < sorted.len() && sorted[p] == unsorted[m];
            assert(sorted[p].1 == m);
        }
    }
    let mut selected: Vec<usize> = Vec::new();
    let mut k: usize = 0;
    let mut full = false;
    while k < items.len()
        invariant_except_break
            !full,
        invariant
            items@ == sorted,
            n == states@.len(),
            k <= sorted.len(),
            forall|p: int|
                0 <= p < sorted.len() ==> #[trigger] sorted[p].1 < n && sorted[p].0
                    == states@[sorted[p].1 as int].newest,
            forall|a: int, b: int| 0 <= a < b < sorted.len() ==> sorted[a].0 >= sorted[b].0,
            forall|m: int| 0 <= m < n ==> #[trigger] index_present(sorted, m),
            selected@.len() <= MAX_SOURCES,
            full ==> selected@.len() == MAX_SOURCES,
            !full ==> selected@.len() < MAX_SOURCES,
            forall|j: int| 0 <= j < selected@.len() ==> selected@[j] < n,
            forall|a: int, b: int|
                0 <= a < b < selected@.len() ==> states@[selected@[a] as int].image@
                    != states@[selected@[b] as int].image@,
            forall|a: int, b: int|
                0 <= a < b < selected@.len() ==> states@[selected@[a] as int].newest
                    >= states@[selected@[b] as int].newest,
            forall|j: int, q: int|
                #![trigger selected@[j], sorted[q]]
                0 <= j < selected@.len() && k <= q < sorted.len() ==> states@[selected@[j]
                    as int].newest >= sorted[q].0,
            forall|p: int|
                #![trigger sorted[p]]
                0 <= p < k ==> exists|j: int|
                    0 <= j < selected@.len() && #[trigger] states@[selected@[j] as int].image@
                        == states@[sorted[p].1 as int].image@ && states@[selected@[j]
                        as int].newest >= sorted[p].0,
        ensures
            k == sorted.len() || full,
        decreases sorted.len() - k,
    {
        let idx = items[k].1;
        let ghost before = selected@;
        if !image_taken(states, &selected, &states[idx].image) {
            selected.push(idx);
            proof {
                assert(selected@[before.len() as int] == idx);
                assert forall|a: int, b: int| 0 <= a < b < selected@.len() implies states@[selected@[a]
                    as int].image@ != states@[selected@[b] as int].image@ by {
                    assert(selected@[a] == before[a]);
                    if b < before.len() {
                        assert(selected@[b] == before[b]);
                    }
                }
                assert forall|a: int, b: int| 0 <= a < b < selected@.len() implies states@[selected@[a]
                    as int].newest >= states@[selected@[b] as int].newest by {
                    assert(selected@[a] == before[a]);
                    if b < before.len() {
                        assert(selected@[b] == before[b]);
                    } else {
                        assert(sorted[k as int].0 == states@[idx as int].newest);
                    }
                }
                assert forall|j: int, q: int|
                    #![trigger selected@[j], sorted[q]]
                    0 <= j < selected@.len() && k + 1 <= q < sorted.len() implies states@[selected@[j]
                    as int].newest >= sorted[q].0 by {
                    if j < before.len() {
                        assert(selected@[j] == before[j]);
                    } else {
                        assert(sorted[k as int].0 >= sorted[q].0);
                    }
                }
                assert forall|p: int| #![trigger sorted[p]] 0 <= p < k + 1 implies exists|j: int|
                    0 <= j < selected@.len() && #[trigger] states@[selected@[j] as int].image@
                        == states@[sorted[p].1 as int].image@ && states@[selected@[j]
                        as int].newest >= sorted[p].0 by {
                    if p == k {
                        let j = before.len() as int;
                        assert(states@[selected@[j] as int].image@ == states@[sorted[p].1
                            as int].image@);
                    } else {
                        let j = choose|j: int|
                            0 <= j < before.len() && #[trigger] states@[before[j] as int].image@
                                == states@[sorted[p].1 as int].image@ && states@[before[j]
                                as int].newest >= sorted[p].0;
                        assert(selected@[j] == before[j]);
                    }
                }
            }
            if selected.len() >= MAX_SOURCES {
                full = true;
                k = k + 1;
                break;
            }
        } else {
            proof {
                assert forall|p: int| #![trigger sorted[p]] 0 <= p < k + 1 implies exists|j: int|
                    0 <= j < selected@.len() && #[trigger] states@[selected@[j] as int].image@
                        == states@[sorted[p].1 as int].image@ && states@[selected@[j]
                        as int].newest >= sorted[p].0 by {
                    if p == k {
                        let j = choose|j: int|
                            0 <= j < selected@.len() && #[trigger] states@[selected@[j]
                                as int].image@ == states@[idx as int].image@;
                        assert(states@[selected@[j] as int].newest >= sorted[p].0);
                    }
                }
            }
        }
        k = k + 1;
    }
    proof {
        assert forall|m: int|
            #![trigger states@[m]]
            0 <= m < states@.len() implies if image_selected(states@, selected@, m) {
            exists|j: int|
                0 <= j < selected@.len() && #[trigger] states@[selected@[j] as int].image@
                    == states@[m].image@ && states@[selected@[j] as int].newest
                    >= states@[m].newest
        } else {
            selected@.len() == MAX_SOURCES && forall|j: int|
                0 <= j < selected@.len() ==> states@[selected@[j] as int].newest
                    >= states@[m].newest
        } by {
            assert(index_present(sorted, m));
            let p = choose|p: int| 0 <= p < sorted.len() && #[trigger] sorted[p].1 == m;
            assert(sorted[p].1 < n);
            if p < k {
                let j = choose|j: int|
                    0 <= j < selected@.len() && #[trigger] states@[selected@[j] as int].image@
                        == states@[sorted[p].1 as int].image@ && states@[selected@[j]
                        as int].newest >= sorted[p].0;
                assert(image_selected(states@, selected@, m));
            } else {
                assert(full);
                assert forall|j: int|
                    0 <= j < selected@.len() implies states@[selected@[j] as int].newest
                        >= states@[m].newest by {
                    assert(states@[selected@[j] as int].newest >= sorted[p].0);
                }
            }
        }
    }
    selected
}

/// `candidate` is a file with the attributes and contents of `entry`.
pub open spec fn matches(entry: FileEntry, candidate: Candidate) -> bool {
    match candidate.entry {
        Some(e) => e.exe == entry.exe && e.size == entry.size && e.hashes@ == entry.hashes@,
        None => false,
    }
}

/// Some candidate matches `entry`.
pub open spec fn has_match(entry: FileEntry, candidates: Seq<Candidate>) -> bool {
    exists|c: int| 0 <= c < candidates.len() && matches(entry, #[trigger] candidates[c])
}

/// `link` links `entry`'s path from the directory of the first candidate
/// that matches `entry`.
pub open spec fn first_link(link: Hardlink, entry: FileEntry, candidates: Seq<Candidate>) -> bool {
    exists|c: int|
        0 <= c < candidates.len() && matches(entry, #[trigger] candidates[c]) && (forall|d: int|
            0 <= d < c ==> !matches(entry, #[trigger] candidates[d])) && link.source@
            == candidates[c].source@ && link.path@ == entry.path@ && link.exe == entry.exe
            && link.size == entry.size && link.hashes@ == entry.hashes@
}

/// The first candidate that matches `entry`, as a hardlink of `entry`'s
/// path from that candidate's directory.
pub fn find_link(entry: &FileEntry, candidates: &Vec<Candidate>) -> (res: Option<Hardlink>)
    ensures
        res is Some <==> has_match(*entry, candidates@),
        res matches Some(link) ==> first_link(link, *entry, candidates@),
{
    let mut c: usize = 0;
    while c < candidates.len()
        invariant
            c <= candidates@.len(),
            forall|d: int| 0 <= d < c ==> !matches(*entry, #[trigger] candidates@[d]),
        decreases candidates@.len() - c,
    {
        let found = match &candidates[c].entry {
            Some(e) => e.exe == entry.exe && e.size == entry.size && bytes_equal(
                &e.hashes,
                &entry.hashes,
            ),
            None => false,
        };
        if found {
            let link = Hardlink {
                source: candidates[c].source.clone(),
                path: entry.path.clone(),
                exe: entry.exe,
                size: entry.size,
                hashes: entry.hashes.clone(),
            };
            assert(matches(*entry, candidates@[c as int]));
            return Some(link);
        }
        c = c + 1;
    }
    None
}

/// Entry `i` is a file that some candidate matches.
pub open spec fn linkable(entries: Seq<Option<FileEntry>>, candidates: Seq<Vec<Candidate>>, i: int) -> bool {
    entries[i] matches Some(e) && has_match(e, candidates[i]@)
}

/// How many of the first `k` entries are linkable.
pub open spec fn link_count(
    entries: Seq<Option<FileEntry>>,
    candidates: Seq<Vec<Candidate>>,
    k: int,
) -> nat
    decreases k,
{
    if k <= 0 {
        0
    } else {
        link_count(entries, candidates, k - 1) + if linkable(entries, candidates, k - 1) {
            1nat
        } else {
            0nat
        }
    }
}

proof fn lemma_link_count_grows(
    entries: Seq<Option<FileEntry>>,
    candidates: Seq<Vec<Candidate>>,
    i: int,
    k: int,
)
    requires
        0 <= i < k,
        linkable(entries, candidates, i),
    ensures
        link_count(entries, candidates, i) < link_count(entries, candidates, k),
    decreases k,
{
    if i < k - 1 {
        lemma_link_count_grows(entries, candidates, i, k - 1);
    }
}

/// The hardlinks for the files of a new image: for each file entry (in
/// order), the first candidate that the stored images offer at its path
/// with the same executable bit, size and hashes. `entries` holds `None`
/// for what is not a file; `candidates[i]` is what the sources hold at the
/// path of `entries[i]`.
pub fn files_to_link(entries: &Vec<Option<FileEntry>>, candidates: &Vec<Vec<Candidate>>) -> (res:
    Vec<Hardlink>)
    requires
        entries@.len() == candidates@.len(),
    ensures
        res@.len() == link_count(entries@, candidates@, entries@.len() as int),
        forall|i: int|
            0 <= i < entries@.len() && #[trigger] linkable(entries@, candidates@, i) ==> first_link(
                res@[link_count(entries@, candidates@, i) as int],
                entries@[i]->0,
                candidates@[i]@,
            ),
{
    let mut res: Vec<Hardlink> = Vec::new();
    let mut k: usize = 0;
    while k < entries.len()
        invariant
            entries@.len() == candidates@.len(),
            k <= entries@.len(),
            res@.len() == link_count(entries@, candidates@, k as int),
            forall|i: int|
                0 <= i < k && #[trigger] linkable(entries@, candidates@, i) ==> first_link(
                    res@[link_count(entries@, candidates@, i) as int],
                    entries@[i]->0,
                    candidates@[i]@,
                ),
        decreases entries@.len() - k,
    {
        let ghost before = res@;
        match &entries[k] {
            Some(entry) => match find_link(entry, &candidates[k]) {
                Some(link) => {
                    res.push(link);
                },
                None => {},
            },
            None => {},
        }
        proof {
            assert forall|i: int|
                0 <= i < k + 1 && #[trigger] linkable(entries@, candidates@, i) implies first_link(
                res@[link_count(entries@, candidates@, i) as int],
                entries@[i]->0,
                candidates@[i]@,
            ) by {
                if i < k {
                    lemma_link_count_grows(entries@, candidates@, i, k as int);
                    assert(res@[link_count(entries@, candidates@, i) as int]
                        == before[link_count(entries@, candidates@, i) as int]);
                }
            }
        }
        k = k + 1;
    }
    res
}

} // verus!
