//! The process snapshot and its resolver: one point-in-time table of
//! processes, lookup of a user-supplied identifier (numeric PID or name
//! substring), and the filtering and ranking behind the listing view.

use vstd::prelude::*;
use crate::activation::lower_of;
use crate::activation::lowercase;
use crate::text::contains_sub;
use crate::text::parse_u32;
use crate::text::seq_contains_sub;
use crate::text::spec_parse_u32;

verus! {

/// One process of a snapshot. CPU usage is held in hundredths of a
/// percent; memory in bytes.
pub struct ProcessRecord {
    pub pid: u32,
    pub name: String,
    pub parent_pid: Option<u32>,
    pub memory_bytes: u64,
    pub cpu_centi_percent: u32,
    pub command: Vec<String>,
}

/// A point-in-time table of all processes, in a fixed order; resolution
/// and ranking are deterministic for a given snapshot because they follow
/// this order.
pub struct ProcessSnapshot {
    pub procs: Vec<ProcessRecord>,
}

pub open spec fn has_pid(procs: Seq<ProcessRecord>, p: u32) -> bool {
    exists|k: int| 0 <= k < procs.len() && procs[k].pid == p
}

/// A well-formed snapshot lists each pid at most once.
pub open spec fn wf_snapshot(procs: Seq<ProcessRecord>) -> bool {
    forall|i: int, j: int|
        #![trigger procs[i].pid, procs[j].pid]
        0 <= i < procs.len() && 0 <= j < procs.len() && i != j ==> procs[i].pid != procs[j].pid
}

/// Index of the first record with this pid, if any.
pub open spec fn first_pid_match(procs: Seq<ProcessRecord>, p: u32) -> Option<int>
    decreases procs.len(),
{
    if procs.len() == 0 {
        None
    } else if procs[0].pid == p {
        Some(0)
    } else {
        match first_pid_match(procs.drop_first(), p) {
            Some(i) => Some(i + 1),
            None => None,
        }
    }
}

/// The identifier, lowercased, occurs in the record's lowercased name.
pub open spec fn name_matches(rec: ProcessRecord, ident_lower: Seq<char>) -> bool {
    seq_contains_sub(lower_of(rec.name@), ident_lower)
}

/// Index of the first record whose lowercased name contains the lowercased
/// identifier, if any.
pub open spec fn first_name_match(procs: Seq<ProcessRecord>, ident_lower: Seq<char>) -> Option<int>
    decreases procs.len(),
{
    if procs.len() == 0 {
        None
    } else if name_matches(procs[0], ident_lower) {
        Some(0)
    } else {
        match first_name_match(procs.drop_first(), ident_lower) {
            Some(i) => Some(i + 1),
            None => None,
        }
    }
}

/// Where resolution of an identifier lands in the snapshot: a direct pid
/// lookup when the identifier is a decimal number, else the first
/// case-insensitive name-substring match.
pub open spec fn spec_resolve(procs: Seq<ProcessRecord>, ident: Seq<char>) -> Option<int> {
    match spec_parse_u32(ident) {
        Some(p) => first_pid_match(procs, p),
        None => first_name_match(procs, lower_of(ident)),
    }
}

pub proof fn lemma_first_pid_match_char(procs: Seq<ProcessRecord>, p: u32)
    ensures
        match first_pid_match(procs, p) {
            Some(i) => 0 <= i < procs.len() && procs[i].pid == p && (forall|j: int|
                0 <= j < i ==> procs[j].pid != p),
            None => forall|j: int| 0 <= j < procs.len() ==> procs[j].pid != p,
        },
    decreases procs.len(),
{
    if procs.len() == 0 {
    } else if procs[0].pid == p {
    } else {
        lemma_first_pid_match_char(procs.drop_first(), p);
        match first_pid_match(procs.drop_first(), p) {
            Some(i) => {
                assert(procs.drop_first()[i] == procs[i + 1]);
                assert forall|j: int| 0 <= j < i + 1 implies procs[j].pid != p by {
                    if j > 0 {
                        assert(procs.drop_first()[j - 1].pid != p);
                        assert(procs.drop_first()[j - 1] == procs[j]);
                    }
                }
            },
            None => {
                assert forall|j: int| 0 <= j < procs.len() implies procs[j].pid != p by {
                    if j > 0 {
                        assert(procs.drop_first()[j - 1].pid != p);
                        assert(procs.drop_first()[j - 1] == procs[j]);
                    }
                }
            },
        }
    }
}

pub proof fn lemma_first_name_match_char(procs: Seq<ProcessRecord>, ident_lower: Seq<char>)
    ensures
        match first_name_match(procs, ident_lower) {
            Some(i) => 0 <= i < procs.len() && name_matches(procs[i], ident_lower) && (forall|
                j: int,
            |
                0 <= j < i ==> !name_matches(procs[j], ident_lower)),
            None => forall|j: int| 0 <= j < procs.len() ==> !name_matches(procs[j], ident_lower),
        },
    decreases procs.len(),
{
    if procs.len() == 0 {
    } else if name_matches(procs[0], ident_lower) {
    } else {
        lemma_first_name_match_char(procs.drop_first(), ident_lower);
        match first_name_match(procs.drop_first(), ident_lower) {
            Some(i) => {
                assert(procs.drop_first()[i] == procs[i + 1]);
                assert forall|j: int| 0 <= j < i + 1 implies !name_matches(
                    procs[j],
                    ident_lower,
                ) by {
                    if j > 0 {
                        assert(!name_matches(procs.drop_first()[j - 1], ident_lower));
                        assert(procs.drop_first()[j - 1] == procs[j]);
                    }
                }
            },
            None => {
                assert forall|j: int| 0 <= j < procs.len() implies !name_matches(
                    procs[j],
                    ident_lower,
                ) by {
                    if j > 0 {
                        assert(!name_matches(procs.drop_first()[j - 1], ident_lower));
                        assert(procs.drop_first()[j - 1] == procs[j]);
                    }
                }
            },
        }
    }
}

/// Resolving the decimal text of a pid the snapshot lists yields exactly
/// that snapshot record.
pub proof fn lemma_resolve_pid_exact(procs: Seq<ProcessRecord>, ident: Seq<char>, k: int)
    requires
        wf_snapshot(procs),
        0 <= k < procs.len(),
        spec_parse_u32(ident) == Some(procs[k].pid),
    ensures
        spec_resolve(procs, ident) == Some(k),
{
    let p = procs[k].pid;
    lemma_first_pid_match_char(procs, p);
    match first_pid_match(procs, p) {
        Some(i) => {
            if i != k {
                assert(procs[i].pid != procs[k].pid);
            }
        },
        None => {
            assert(procs[k].pid != p);
        },
    }
}

/// The round trip behind pid lookup: in a well-formed snapshot, resolving
/// the decimal text of the pid of any record yields exactly that record.
pub proof fn lemma_resolve_pid_roundtrip(procs: Seq<ProcessRecord>, k: int)
    requires
        wf_snapshot(procs),
        0 <= k < procs.len(),
    ensures
        spec_resolve(procs, crate::text::decimal_of(procs[k].pid as nat)) == Some(k),
{
    crate::text::lemma_decimal_of_parses(procs[k].pid);
    lemma_resolve_pid_exact(procs, crate::text::decimal_of(procs[k].pid as nat), k);
}

impl ProcessSnapshot {
    /// Whether some record of the snapshot has this pid.
    pub fn contains_pid(&self, p: u32) -> (r: bool)
        ensures
            r == has_pid(self.procs@, p),
    {
        let mut i: usize = 0;
        while i < self.procs.len()
            invariant
                0 <= i <= self.procs@.len(),
                forall|j: int| 0 <= j < i ==> self.procs@[j].pid != p,
            decreases self.procs@.len() - i,
        {
            if self.procs[i].pid == p {
                assert(self.procs@[i as int].pid == p);
                return true;
            }
            i += 1;
        }
        false
    }

    /// Maps an identifier to one record of the snapshot: by pid when the
    /// identifier is a decimal number, else the first record whose name
    /// contains the identifier case-insensitively; the choice among
    /// several name matches is the snapshot order, so it is reproducible
    /// for a given snapshot.
    pub fn resolve(&self, identifier: &str) -> (r: Option<&ProcessRecord>)
        ensures
            match r {
                Some(rec) => spec_resolve(self.procs@, identifier@) is Some && *rec
                    == self.procs@[spec_resolve(self.procs@, identifier@)->0],
                None => spec_resolve(self.procs@, identifier@) is None,
            },
    {
        match parse_u32(identifier) {
            Some(p) => {
                let mut i: usize = 0;
                while i < self.procs.len()
                    invariant
                        spec_parse_u32(identifier@) == Some(p),
                        0 <= i <= self.procs@.len(),
                        forall|j: int| 0 <= j < i ==> self.procs@[j].pid != p,
                    decreases self.procs@.len() - i,
                {
                    if self.procs[i].pid == p {
                        proof {
                            lemma_first_pid_match_char(self.procs@, p);
                            match first_pid_match(self.procs@, p) {
                                Some(ix) => {
                                    if ix < i as int {
                                        assert(self.procs@[ix].pid != p);
                                    }
                                    if ix > i as int {
                                        assert(self.procs@[i as int].pid == p);
                                    }
                                },
                                None => {
                                    assert(self.procs@[i as int].pid == p);
                                },
                            }
                        }
                        return Some(&self.procs[i]);
                    }
                    i += 1;
                }
                proof {
                    lemma_first_pid_match_char(self.procs@, p);
                    if first_pid_match(self.procs@, p) is Some {
                        let ix = first_pid_match(self.procs@, p)->0;
                        assert(self.procs@[ix].pid == p);
                    }
                }
                None
            },
            None => {
                let ident_lower = lowercase(identifier);
                let mut i: usize = 0;
                while i < self.procs.len()
                    invariant
                        spec_parse_u32(identifier@) is None,
                        ident_lower@ == lower_of(identifier@),
                        0 <= i <= self.procs@.len(),
                        forall|j: int|
                            0 <= j < i ==> !name_matches(self.procs@[j], ident_lower@),
                    decreases self.procs@.len() - i,
                {
                    let nm = lowercase(self.procs[i].name.as_str());
                    if contains_sub(nm.as_str(), ident_lower.as_str()) {
                        proof {
                            assert(name_matches(self.procs@[i as int], ident_lower@));
                            lemma_first_name_match_char(self.procs@, ident_lower@);
                            match first_name_match(self.procs@, ident_lower@) {
                                Some(ix) => {
                                    if ix < i as int {
                                        assert(!name_matches(self.procs@[ix], ident_lower@));
                                    }
                                    if ix > i as int {
                                        assert(name_matches(self.procs@[i as int], ident_lower@));
                                    }
                                },
                                None => {
                                    assert(name_matches(self.procs@[i as int], ident_lower@));
                                },
                            }
                        }
                        return Some(&self.procs[i]);
                    }
                    i += 1;
                }
                proof {
                    lemma_first_name_match_char(self.procs@, ident_lower@);
                    if first_name_match(self.procs@, ident_lower@) is Some {
                        let ix = first_name_match(self.procs@, ident_lower@)->0;
                        assert(name_matches(self.procs@[ix], ident_lower@));
                    }
                }
                None
            },
        }
    }
}

/// Whether a record passes the listing filters: the optional lowercased
/// name substring, and the 100 MiB memory floor.
pub open spec fn spec_passes_filter(
    rec: ProcessRecord,
    name_lower: Option<Seq<char>>,
    high_memory: bool,
) -> bool {
    &&& (name_lower is Some ==> seq_contains_sub(lower_of(rec.name@), name_lower->0))
    &&& (high_memory ==> rec.memory_bytes >= 104857600)
}

/// The indices of the records that pass the filters, ascending.
pub open spec fn spec_selected(
    procs: Seq<ProcessRecord>,
    name_lower: Option<Seq<char>>,
    high_memory: bool,
) -> Seq<usize>
    decreases procs.len(),
{
    if procs.len() == 0 {
        Seq::empty()
    } else {
        spec_selected(procs.drop_last(), name_lower, high_memory) + (if spec_passes_filter(
            procs.last(),
            name_lower,
            high_memory,
        ) {
            seq![(procs.len() - 1) as usize]
        } else {
            Seq::<usize>::empty()
        })
    }
}

/// The key a listing is ranked by.
#[derive(PartialEq, Eq, Structural, Clone, Copy, Debug)]
pub enum RankKey {
    MemoryBytes,
    CpuCentiPercent,
}

pub open spec fn spec_rank_key(rec: ProcessRecord, key: RankKey) -> u64 {
    match key {
        RankKey::MemoryBytes => rec.memory_bytes,
        RankKey::CpuCentiPercent => rec.cpu_centi_percent as u64,
    }
}

impl ProcessSnapshot {
    /// The indices of the records that pass the listing filters, in
    /// snapshot order.
    pub fn select_processes(&self, name_filter: Option<&str>, high_memory: bool) -> (r: Vec<usize>)
        ensures
            r@ == spec_selected(
                self.procs@,
                match name_filter {
                    Some(f) => Some(lower_of(f@)),
                    None => None,
                },
                high_memory,
            ),
            forall|k: int| 0 <= k < r@.len() ==> (r@[k] as int) < self.procs@.len(),
    {
        let ghost name_lower: Option<Seq<char>> = match name_filter {
            Some(f) => Some(lower_of(f@)),
            None => None,
        };
        let filter_lower: Option<String> = match name_filter {
            Some(f) => Some(lowercase(f)),
            None => None,
        };
        let mut out: Vec<usize> = Vec::new();
        let mut i: usize = 0;
        while i < self.procs.len()
            invariant
                0 <= i <= self.procs@.len(),
                match (filter_lower, name_lower) {
                    (Some(fl), Some(nl)) => fl@ == nl,
                    (None, None) => true,
                    _ => false,
                },
                out@ == spec_selected(self.procs@.take(i as int), name_lower, high_memory),
                forall|k: int| 0 <= k < out@.len() ==> (out@[k] as int) < i as int,
            decreases self.procs@.len() - i,
        {
            let name_ok: bool = match &filter_lower {
                Some(fl) => {
                    let nm = lowercase(self.procs[i].name.as_str());
                    contains_sub(nm.as_str(), fl.as_str())
                },
                None => true,
            };
            let mem_ok: bool = !high_memory || self.procs[i].memory_bytes >= 104857600;
            proof {
                assert(self.procs@.take(i as int + 1).drop_last() =~= self.procs@.take(i as int));
                assert(self.procs@.take(i as int + 1).last() == self.procs@[i as int]);
            }
            if name_ok && mem_ok {
                out.push(i);
                proof {
                    assert(out@ =~= spec_selected(
                        self.procs@.take(i as int + 1),
                        name_lower,
                        high_memory,
                    ));
                }
            } else {
                proof {
                    assert(!spec_passes_filter(self.procs@[i as int], name_lower, high_memory));
                    assert(out@ =~= spec_selected(
                        self.procs@.take(i as int + 1),
                        name_lower,
                        high_memory,
                    ));
                }
            }
            i += 1;
        }
        proof {
            assert(self.procs@.take(self.procs@.len() as int) =~= self.procs@);
        }
        out
    }

    /// Pairs each selected index with its ranking key, ready to be sorted.
    pub fn rank_pairs(&self, sel: &Vec<usize>, key: RankKey) -> (r: Vec<(u64, usize)>)
        requires
            forall|k: int| 0 <= k < sel@.len() ==> (sel@[k] as int) < self.procs@.len(),
        ensures
            r@.len() == sel@.len(),
            forall|k: int|
                0 <= k < r@.len() ==> r@[k] == (
                    spec_rank_key(self.procs@[sel@[k] as int], key),
                    sel@[k],
                ),
    {
        let mut out: Vec<(u64, usize)> = Vec::new();
        let mut i: usize = 0;
        while i < sel.len()
            invariant
                forall|k: int| 0 <= k < sel@.len() ==> (sel@[k] as int) < self.procs@.len(),
                0 <= i <= sel@.len(),
                out@.len() == i as int,
                forall|k: int|
                    0 <= k < i ==> out@[k] == (
                        spec_rank_key(self.procs@[sel@[k] as int], key),
                        sel@[k],
                    ),
            decreases sel@.len() - i,
        {
            let idx = sel[i];
            let kv: u64 = match key {
                RankKey::MemoryBytes => self.procs[idx].memory_bytes,
                RankKey::CpuCentiPercent => self.procs[idx].cpu_centi_percent as u64,
            };
            out.push((kv, idx));
            i += 1;
        }
        out
    }
}

/// Where a new pair lands when inserted into a descending run: after every
/// earlier pair of equal or larger key, so equal keys keep their order.
pub open spec fn insert_desc(s: Seq<(u64, usize)>, x: (u64, usize)) -> Seq<(u64, usize)>
    decreases s.len(),
{
    if s.len() == 0 {
        seq![x]
    } else if x.0 > s.last().0 {
        insert_desc(s.drop_last(), x) + seq![s.last()]
    } else {
        s + seq![x]
    }
}

/// Stable sort by key, descending.
pub open spec fn sort_desc(s: Seq<(u64, usize)>) -> Seq<(u64, usize)>
    decreases s.len(),
{
    if s.len() == 0 {
        Seq::empty()
    } else {
        insert_desc(sort_desc(s.drop_last()), s.last())
    }
}

proof fn lemma_insert_desc_splits(s: Seq<(u64, usize)>, x: (u64, usize), j: int)
    requires
        0 <= j <= s.len(),
        forall|k: int| j <= k < s.len() ==> s[k].0 < x.0,
        j == 0 || s[j - 1].0 >= x.0,
    ensures
        insert_desc(s, x) == s.take(j) + seq![x] + s.skip(j),
    decreases s.len(),
{
    if j == s.len() {
        if s.len() == 0 {
            assert(insert_desc(s, x) =~= s.take(j) + seq![x] + s.skip(j));
        } else {
            assert(!(x.0 > s.last().0));
            assert(s + seq![x] =~= s.take(j) + seq![x] + s.skip(j));
        }
    } else {
        assert(s[s.len() - 1].0 < x.0);
        lemma_insert_desc_splits(s.drop_last(), x, j);
        assert(s.drop_last().take(j) =~= s.take(j));
        assert((s.take(j) + seq![x] + s.drop_last().skip(j)) + seq![s.last()] =~= s.take(j) + seq![
            x,
        ] + s.skip(j));
    }
}

fn pair_key_lt(v: &Vec<(u64, usize)>, idx: usize, key: u64) -> (r: bool)
    requires
        idx < v@.len(),
    ensures
        r == (v@[idx as int].0 < key),
{
    v[idx].0 < key
}

/// Sorts ranking pairs by key, descending and stable: exactly the order
/// `sort_desc` describes.
pub fn sort_pairs_desc(pairs: &Vec<(u64, usize)>) -> (r: Vec<(u64, usize)>)
    ensures
        r@ == sort_desc(pairs@),
{
    let mut out: Vec<(u64, usize)> = Vec::new();
    let mut i: usize = 0;
    while i < pairs.len()
        invariant
            0 <= i <= pairs@.len(),
            out@ == sort_desc(pairs@.take(i as int)),
        decreases pairs@.len() - i,
    {
        let x = pairs[i];
        let mut j: usize = out.len();
        while j > 0 && pair_key_lt(&out, j - 1, x.0)
            invariant
                0 <= j <= out@.len(),
                forall|k: int| j <= k < out@.len() ==> out@[k].0 < x.0,
            decreases j,
        {
            j -= 1;
        }
        let ghost prev = out@;
        out.insert(j, x);
        proof {
            lemma_insert_desc_splits(prev, x, j as int);
            assert(prev.insert(j as int, x) =~= prev.take(j as int) + seq![x] + prev.skip(j as int));
            assert(pairs@.take(i as int + 1).drop_last() =~= pairs@.take(i as int));
            assert(pairs@.take(i as int + 1).last() == pairs@[i as int]);
        }
        i += 1;
    }
    proof {
        assert(pairs@.take(pairs@.len() as int) =~= pairs@);
    }
    out
}

} // verus!
