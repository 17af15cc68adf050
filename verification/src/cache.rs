//! The content-addressable cache index: source path to cached artifact.
//!
//! The index is rebuilt purely from the artifact root's directory layout at
//! startup — each artifact directory's name encodes its source path, and a
//! marker child directory carries the duration — and extended by insertion
//! after a successful transcode. There is no separate metadata store.

use vstd::prelude::*;
use crate::keycodec::{
    key_of, marker_text, extract_duration_spec, decode_dir_name, extract_duration,
    marker_dir_name, generate_dir_name,
};
use crate::text::str_eq;

verus! {

/// One cached artifact: the recovered duration, the artifact directory name,
/// and the source path that the name encodes.
pub struct Cache {
    pub duration_ms: u64,
    pub output_dir_name: String,
    pub original_file_path: String,
}

impl Cache {
    /// The directory name is exactly the encoding of the source path, so
    /// the entry can always be recovered from disk alone.
    pub open spec fn wf(self) -> bool {
        self.output_dir_name@ == key_of(self.original_file_path@)
    }
}

/// The entry stored for a source path: the latest one wins, though a
/// well-formed index never holds two entries for one path.
pub open spec fn seq_get(es: Seq<Cache>, p: Seq<char>) -> Option<Cache>
    decreases es.len(),
{
    if es.len() == 0 {
        None
    } else if es.last().original_file_path@ == p {
        Some(es.last())
    } else {
        seq_get(es.drop_last(), p)
    }
}

pub proof fn lemma_seq_get(es: Seq<Cache>, p: Seq<char>)
    ensures
        seq_get(es, p) is None ==> forall|i: int|
            0 <= i < es.len() ==> (#[trigger] es[i]).original_file_path@ != p,
        seq_get(es, p) matches Some(c) ==> (c.original_file_path@ == p && exists|i: int|
            0 <= i < es.len() && es[i] == c),
    decreases es.len(),
{
    if es.len() > 0 {
        lemma_seq_get(es.drop_last(), p);
        if es.last().original_file_path@ != p {
            assert(forall|i: int|
                0 <= i < es.len() - 1 ==> #[trigger] es[i] == es.drop_last()[i]);
            match seq_get(es.drop_last(), p) {
                Some(c) => {
                    let i = choose|i: int|
                        0 <= i < es.drop_last().len() && es.drop_last()[i] == c;
                    assert(es[i] == c);
                },
                None => {},
            }
        } else {
            assert(es[es.len() - 1] == es.last());
        }
    }
}

/// Inserting an entry for a fresh source path makes exactly that path find
/// it and leaves every other path's answer unchanged: the cache is
/// idempotent, so a second request for the same source never repeats the
/// transcode and sees the same artifact directory and duration.
pub proof fn lemma_cache_idempotent(es: Seq<Cache>, c: Cache)
    requires
        seq_get(es, c.original_file_path@) is None,
    ensures
        seq_get(es.push(c), c.original_file_path@) == Some(c),
        forall|q: Seq<char>|
            q != c.original_file_path@ ==> seq_get(es.push(c), q) == seq_get(es, q),
{
    assert(es.push(c).last() == c);
    assert(es.push(c).drop_last() =~= es);
}

/// The in-memory cache index, keyed by source path. Shared across requests
/// by its owner; each operation is a single step, so the owner's lock need
/// only cover that step, never a running transcode.
pub struct CacheIndex {
    entries: Vec<Cache>,
}

impl CacheIndex {
    pub closed spec fn entries_seq(self) -> Seq<Cache> {
        self.entries@
    }

    /// Keys unique and every entry internally consistent.
    pub open spec fn wf(self) -> bool {
        &&& forall|i: int, j: int|
            0 <= i < j < self.entries_seq().len() ==> (
            #[trigger] self.entries_seq()[i]).original_file_path@ != (
            #[trigger] self.entries_seq()[j]).original_file_path@
        &&& forall|i: int| 0 <= i < self.entries_seq().len() ==> (#[trigger] self.entries_seq()[i]).wf()
    }

    pub open spec fn spec_get(self, p: Seq<char>) -> Option<Cache> {
        seq_get(self.entries_seq(), p)
    }

    pub fn new() -> (r: CacheIndex)
        ensures
            r.entries_seq().len() == 0,
            r.wf(),
            forall|p: Seq<char>| r.spec_get(p) is None,
    {
        CacheIndex { entries: Vec::new() }
    }

    /// Looks up the entry for a source path.
    pub fn lookup(&self, original_file_path: &str) -> (r: Option<&Cache>)
        ensures
            r matches Some(c) ==> self.spec_get(original_file_path@) == Some(*c),
            r is None ==> self.spec_get(original_file_path@) is None,
    {
        let n = self.entries.len();
        let mut i: usize = n;
        proof {
            assert(self.entries@.take(n as int) =~= self.entries@);
        }
        while i > 0
            invariant
                i <= n,
                n == self.entries@.len(),
                seq_get(self.entries@, original_file_path@) == seq_get(
                    self.entries@.take(i as int),
                    original_file_path@,
                ),
            decreases i,
        {
            let c = &self.entries[i - 1];
            if str_eq(c.original_file_path.as_str(), original_file_path) {
                proof {
                    assert(self.entries@.take(i as int).last() == self.entries@[i - 1]);
                }
                return Some(c);
            }
            proof {
                assert(self.entries@.take(i as int).last() == self.entries@[i - 1]);
                assert(self.entries@.take(i as int).drop_last() =~= self.entries@.take(
                    i as int - 1,
                ));
            }
            i -= 1;
        }
        proof {
            assert(self.entries@.take(0) =~= Seq::<Cache>::empty());
        }
        None
    }

    /// Inserts an entry for a source path not yet present; an existing
    /// entry is never replaced or updated in place.
    pub fn insert(&mut self, cache: Cache)
        requires
            old(self).wf(),
            cache.wf(),
        ensures
            final(self).wf(),
            old(self).spec_get(cache.original_file_path@) is None ==> final(self).entries_seq()
                == old(self).entries_seq().push(cache),
            old(self).spec_get(cache.original_file_path@) is Some ==> final(self).entries_seq()
                == old(self).entries_seq(),
            final(self).spec_get(cache.original_file_path@) is Some,
    {
        let present = self.lookup(cache.original_file_path.as_str());
        let is_present = present.is_some();
        if !is_present {
            proof {
                lemma_seq_get(self.entries@, cache.original_file_path@);
                lemma_cache_idempotent(self.entries@, cache);
            }
            self.entries.push(cache);
            proof {
                assert(forall|i: int|
                    0 <= i < self.entries@.len() - 1 ==> #[trigger] self.entries@[i]
                        == old(self).entries@[i]);
            }
        }
    }
}

/// One immediate subdirectory of the artifact root, with the names of its
/// own immediate subdirectories.
pub struct DirListing {
    pub name: String,
    pub child_names: Vec<String>,
}

/// Scans an artifact directory's children for a duration marker; the last
/// decodable marker wins and absence yields zero.
fn duration_from_children(child_names: &Vec<String>) -> (d: u64)
    ensures
        forall|dd: u64|
            #![trigger marker_text(dd as nat)]
            ((exists|k: int|
                0 <= k < child_names@.len() && (#[trigger] child_names@[k])@ == key_of(
                    marker_text(dd as nat),
                )) && (forall|k: int, q: Seq<char>|
                #![trigger child_names@[k], key_of(q)]
                0 <= k < child_names@.len() && child_names@[k]@ == key_of(q)
                    ==> extract_duration_spec(q) is None || q == marker_text(dd as nat))) ==> d
                == dd,
        (forall|k: int, q: Seq<char>|
            #![trigger child_names@[k], key_of(q)]
            0 <= k < child_names@.len() && child_names@[k]@ == key_of(q)
                ==> extract_duration_spec(q) is None) ==> d == 0,
{
    let mut d: u64 = 0;
    let mut found = false;
    let n = child_names.len();
    let mut k: usize = 0;
    while k < n
        invariant
            k <= n,
            n == child_names@.len(),
            !found ==> d == 0,
            found ==> exists|k2: int, q: Seq<char>|
                #![trigger child_names@[k2], key_of(q)]
                0 <= k2 < k && child_names@[k2]@ == key_of(q)
                    && extract_duration_spec(q) == Some(d),
            forall|dd: u64|
                #![trigger marker_text(dd as nat)]
                ((exists|k2: int|
                    0 <= k2 < k && (#[trigger] child_names@[k2])@ == key_of(
                        marker_text(dd as nat),
                    )) && (forall|k2: int, q: Seq<char>|
                    #![trigger child_names@[k2], key_of(q)]
                    0 <= k2 < child_names@.len() && child_names@[k2]@ == key_of(q)
                        ==> extract_duration_spec(q) is None || q == marker_text(dd as nat)))
                    ==> found && d == dd,
        decreases n - k,
    {
        let child = &child_names[k];
        match decode_dir_name(child.as_str()) {
            None => {
                proof {
                    assert forall|q: Seq<char>| child_names@[k as int]@ != key_of(q) by {}
                }
            },
            Some(text) => {
                match extract_duration(text.as_str()) {
                    None => {},
                    Some(v) => {
                        d = v;
                        found = true;
                        proof {
                            crate::keycodec::lemma_marker_round_trip(v);
                        }
                    },
                }
            },
        }
        k += 1;
        proof {
            assert forall|dd: u64|
                #![trigger marker_text(dd as nat)]
                ((exists|k2: int|
                    0 <= k2 < k && (#[trigger] child_names@[k2])@ == key_of(
                        marker_text(dd as nat),
                    )) && (forall|k2: int, q: Seq<char>|
                    #![trigger child_names@[k2], key_of(q)]
                    0 <= k2 < child_names@.len() && child_names@[k2]@ == key_of(q)
                        ==> extract_duration_spec(q) is None || q == marker_text(dd as nat)))
                    implies found && d == dd by {
                crate::keycodec::lemma_marker_round_trip(dd);
            }
        }
    }
    d
}

/// Decodes one artifact directory: its name as the source path, its
/// children for the duration marker. A name that does not decode yields
/// nothing and is tolerated by the caller.
pub fn parse_cache(dir_name: &str, child_names: &Vec<String>) -> (r: Option<Cache>)
    ensures
        forall|p: Seq<char>|
            dir_name@ == key_of(p) ==> r is Some && r.unwrap().original_file_path@ == p,
        r matches Some(c) ==> c.wf() && c.output_dir_name@ == dir_name@,
        r matches Some(c) ==> (forall|dd: u64|
            #![trigger marker_text(dd as nat)]
            ((exists|k: int|
                0 <= k < child_names@.len() && (#[trigger] child_names@[k])@ == key_of(
                    marker_text(dd as nat),
                )) && (forall|k: int, q: Seq<char>|
                #![trigger child_names@[k], key_of(q)]
                0 <= k < child_names@.len() && child_names@[k]@ == key_of(q)
                    ==> extract_duration_spec(q) is None || q == marker_text(dd as nat)))
                ==> c.duration_ms == dd),
        r matches Some(c) ==> ((forall|k: int, q: Seq<char>|
            #![trigger child_names@[k], key_of(q)]
            0 <= k < child_names@.len() && child_names@[k]@ == key_of(q)
                ==> extract_duration_spec(q) is None) ==> c.duration_ms == 0),
{
    match decode_dir_name(dir_name) {
        None => None,
        Some(original_file_path) => {
            let duration_ms = duration_from_children(child_names);
            let name_copy = String::from_str(dir_name);
            Some(
                Cache {
                    duration_ms,
                    output_dir_name: name_copy,
                    original_file_path,
                },
            )
        },
    }
}


/// The listing's children carry exactly the duration marker for `d`: one
/// child is the encoded marker, and no child decodes to any other duration.
pub open spec fn children_carry(l: DirListing, d: u64) -> bool {
    &&& exists|k: int|
        0 <= k < l.child_names@.len() && (#[trigger] l.child_names@[k])@ == key_of(
            marker_text(d as nat),
        )
    &&& forall|k: int, q: Seq<char>|
        #![trigger l.child_names@[k], key_of(q)]
        0 <= k < l.child_names@.len() && l.child_names@[k]@ == key_of(q)
            ==> extract_duration_spec(q) is None || q == marker_text(d as nat)
}

/// No other listing shares this listing's directory name.
pub open spec fn name_unique(listings: Seq<DirListing>, i: int) -> bool {
    forall|i2: int|
        0 <= i2 < listings.len() && i2 != i ==> (#[trigger] listings[i2]).name@ != listings[i].name@
}

/// Some listing carries this directory name.
pub open spec fn name_among(name: Seq<char>, listings: Seq<DirListing>) -> bool {
    exists|i: int| 0 <= i < listings.len() && name == (#[trigger] listings[i]).name@
}

/// Rebuilds the whole index from the artifact root's immediate
/// subdirectories: one entry per directory whose name decodes, the first
/// directory winning a duplicated name; a directory whose name fails to
/// decode is tolerated and skipped.
pub fn init_hashmap(listings: &Vec<DirListing>) -> (r: CacheIndex)
    ensures
        r.wf(),
        r.entries_seq().len() <= listings@.len(),
        forall|i: int, p: Seq<char>|
            #![trigger listings@[i].name@, key_of(p)]
            0 <= i < listings@.len() && listings@[i].name@ == key_of(p) ==> r.spec_get(p)
                is Some,
        forall|i: int, p: Seq<char>, d: u64|
            #![trigger listings@[i].name@, key_of(p), marker_text(d as nat)]
            0 <= i < listings@.len() && listings@[i].name@ == key_of(p) && name_unique(
                listings@,
                i,
            ) && children_carry(listings@[i], d) ==> (r.spec_get(p) matches Some(c)
                && c.duration_ms == d && c.output_dir_name@ == listings@[i].name@),
        forall|j: int|
            0 <= j < r.entries_seq().len() ==> name_among(
                (#[trigger] r.entries_seq()[j]).output_dir_name@,
                listings@,
            ),
{
    let mut index = CacheIndex::new();
    let n = listings.len();
    let ghost mut srcs: Seq<int> = Seq::empty();
    let mut i: usize = 0;
    while i < n
        invariant
            i <= n,
            n == listings@.len(),
            index.wf(),
            index.entries_seq().len() <= i,
            forall|i2: int, p: Seq<char>|
                #![trigger listings@[i2].name@, key_of(p)]
                0 <= i2 < i && listings@[i2].name@ == key_of(p) ==> index.spec_get(p) is Some,
            forall|i2: int, p: Seq<char>, d: u64|
                #![trigger listings@[i2].name@, key_of(p), marker_text(d as nat)]
                0 <= i2 < i && listings@[i2].name@ == key_of(p) && name_unique(listings@, i2)
                    && children_carry(listings@[i2], d) ==> (index.spec_get(p) matches Some(c)
                    && c.duration_ms == d && c.output_dir_name@ == listings@[i2].name@),
            srcs.len() == index.entries_seq().len(),
            forall|j: int|
                0 <= j < srcs.len() ==> 0 <= #[trigger] srcs[j] < i
                    && index.entries_seq()[j].output_dir_name@ == listings@[srcs[j]].name@,
        decreases n - i,
    {
        let listing = &listings[i];
        match parse_cache(listing.name.as_str(), &listing.child_names) {
            None => {
                proof {
                    assert forall|p: Seq<char>| listings@[i as int].name@ != key_of(p) by {}
                }
            },
            Some(cache) => {
                let ghost c = cache;
                let ghost pre = index.entries_seq();
                index.insert(cache);
                proof {
                    if seq_get(pre, c.original_file_path@) is None {
                        lemma_cache_idempotent(pre, c);
                        srcs = srcs.push(i as int);
                        assert forall|j: int|
                            0 <= j < srcs.len() implies 0 <= #[trigger] srcs[j] < n
                                && index.entries_seq()[j].output_dir_name@ == listings@[
                            srcs[j]].name@ by {
                            if j < pre.len() {
                                assert(index.entries_seq()[j] == pre[j]);
                                assert(srcs[j] == srcs.drop_last()[j]);
                            } else {
                                assert(index.entries_seq()[j] == c);
                                assert(srcs[j] == i as int);
                                assert(c.output_dir_name@ == listings@[i as int].name@);
                            }
                        }
                    }
                    assert forall|i2: int, p: Seq<char>|
                        #![trigger listings@[i2].name@, key_of(p)]
                        0 <= i2 < i + 1 && listings@[i2].name@ == key_of(p) implies index.spec_get(
                        p,
                    ) is Some by {
                        if i2 < i as int {
                            if seq_get(pre, c.original_file_path@) is None {
                                lemma_cache_idempotent(pre, c);
                            }
                        } else {
                            assert(c.original_file_path@ == p);
                        }
                    }
                    assert forall|i2: int, p: Seq<char>, d: u64|
                        #![trigger listings@[i2].name@, key_of(p), marker_text(d as nat)]
                        0 <= i2 < i + 1 && listings@[i2].name@ == key_of(p) && name_unique(
                        listings@,
                        i2,
                    ) && children_carry(listings@[i2], d) implies (index.spec_get(p)
                        matches Some(cc) && cc.duration_ms == d && cc.output_dir_name@
                        == listings@[i2].name@) by {
                        if i2 < i as int {
                            // established earlier; the new insertion leaves this key's
                            // answer unchanged
                            if seq_get(pre, c.original_file_path@) is None {
                                lemma_cache_idempotent(pre, c);
                                if p == c.original_file_path@ {
                                    assert(seq_get(pre, p) is Some);
                                }
                            }
                        } else {
                            // this listing's own entry: the decoded path is the key and
                            // the marker fixes the duration
                            assert(c.original_file_path@ == p);
                            assert(c.duration_ms == d);
                            if seq_get(pre, p) is Some {
                                // an earlier entry for the same path would have come from
                                // an earlier listing with the same encoded name
                                lemma_seq_get(pre, p);
                                let cp = seq_get(pre, p).unwrap();
                                let j = choose|j: int| 0 <= j < pre.len() && pre[j] == cp;
                                assert(cp.wf());
                                assert(cp.output_dir_name@ == key_of(p));
                                assert(0 <= srcs[j] < i as int);
                                assert(listings@[srcs[j]].name@ == cp.output_dir_name@);
                                assert(listings@[srcs[j]].name@ == listings@[i as int].name@);
                                assert(false);
                            } else {
                                lemma_cache_idempotent(pre, c);
                            }
                        }
                    }
                }
            },
        }
        i += 1;
    }
    proof {
        assert forall|j: int| 0 <= j < index.entries_seq().len() implies name_among(
            (#[trigger] index.entries_seq()[j]).output_dir_name@,
            listings@,
        ) by {
            let w = srcs[j];
            assert(0 <= w < listings@.len() && index.entries_seq()[j].output_dir_name@
                == listings@[w].name@);
        }
    }
    index
}

/// Names the duration-marker directory that persists an artifact's
/// duration on disk: `hls/<artifact>/<marker>`. The caller creates this
/// directory before recording the entry with `cache_map_insert`, so that a
/// creation failure leaves the index unchanged and disk and memory stay
/// consistent.
pub fn marker_dir_path(output_dir_name: &str, duration_ms: u64) -> (r: String)
    ensures
        r@ == "hls/"@ + output_dir_name@ + "/"@ + key_of(marker_text(duration_ms as nat)),
{
    let marker = marker_dir_name(duration_ms);
    let mut path = String::from_str("hls/");
    path.append(output_dir_name);
    path.append("/");
    path.append(marker.as_str());
    path
}

/// Records a finished transcode in the index. The marker directory named by
/// `marker_dir_path` for this entry already exists on disk when this is
/// called: the caller creates it first and records only on success.
pub fn cache_map_insert(index: &mut CacheIndex, input_path: String, cache: Cache)
    requires
        old(index).wf(),
        cache.wf(),
        input_path@ == cache.original_file_path@,
    ensures
        final(index).wf(),
        old(index).spec_get(input_path@) is None ==> final(index).entries_seq() == old(
            index,
        ).entries_seq().push(cache),
        old(index).spec_get(input_path@) is Some ==> final(index).entries_seq() == old(
            index,
        ).entries_seq(),
        final(index).spec_get(input_path@) is Some,
{
    index.insert(cache);
}

/// Rebuild round trip for one inserted artifact: scanning the directory
/// layout an insertion leaves behind recovers exactly the inserted source
/// path, directory name and duration, whatever order directories come in.
pub fn rebuild_entry_round_trip(original_file_path: &str, duration_ms: u64) -> (r: Option<Cache>)
    ensures
        r matches Some(c) && c.original_file_path@ == original_file_path@ && c.duration_ms
            == duration_ms && c.output_dir_name@ == key_of(original_file_path@),
{
    let name = generate_dir_name(original_file_path);
    let mut children: Vec<String> = Vec::new();
    children.push(marker_dir_name(duration_ms));
    let ghost marker = children@[0];
    let r = parse_cache(name.as_str(), &children);
    proof {
        crate::keycodec::lemma_marker_round_trip(duration_ms);
        assert(children@[0]@ == key_of(marker_text(duration_ms as nat)));
        assert forall|k: int, q: Seq<char>|
            #![trigger children@[k], key_of(q)]
            0 <= k < children@.len() && children@[k]@ == key_of(q) implies extract_duration_spec(
            q,
        ) is None || q == marker_text(duration_ms as nat) by {
            assert(children@[k] == marker);
            assert(q == marker_text(duration_ms as nat));
        }
    }
    r
}

} // verus!
