//! Windows as the backends report them, the parsers for the two backends'
//! raw output, and the core resolution algorithm: backends in priority
//! order, two passes per backend, exact owner before descendant owner.

use vstd::prelude::*;
use vstd::string::StrSliceExecFns;
use crate::text::contains_u32;
use crate::text::join_space;
use crate::text::join_with_spaces;
use crate::text::lemma_scan_to_char_is;
use crate::text::lemma_scan_to_char_le;
use crate::text::scan_to_char;
use crate::text::spec_parse_u32;
use crate::text::split_whitespace;
use crate::text::split_ws;
use crate::text::parse_u32;
use crate::text::trim;
use crate::text::trim_ws;
use crate::text::views_of;
use crate::tree::ProcessTreeIndex;
use crate::tree::descendant_set;
use crate::tree::family_set;

verus! {

/// One visible window as a backend reports it: an identifier whose format
/// is backend-specific and opaque, the title, the class (absent classes
/// are reported as `Unknown`), and the pid the backend says owns it.
pub struct WindowInfo {
    pub window_id: String,
    pub title: String,
    pub class: String,
    pub pid: u32,
}

/// The fields of a window, by view.
pub struct WinView {
    pub window_id: Seq<char>,
    pub title: Seq<char>,
    pub class: Seq<char>,
    pub pid: u32,
}

impl View for WindowInfo {
    type V = WinView;

    open spec fn view(&self) -> WinView {
        WinView {
            window_id: self.window_id@,
            title: self.title@,
            class: self.class@,
            pid: self.pid,
        }
    }
}

impl Clone for WindowInfo {
    fn clone(&self) -> (r: Self)
        ensures
            r == *self,
    {
        WindowInfo {
            window_id: self.window_id.clone(),
            title: self.title.clone(),
            class: self.class.clone(),
            pid: self.pid,
        }
    }
}

/// What one backend produced: its window list, or nothing because the
/// backend's own enumeration call failed.
pub enum BackendOutcome {
    Available(Vec<WindowInfo>),
    Unavailable,
}

pub open spec fn win_views(ws: Seq<WindowInfo>) -> Seq<WinView> {
    ws.map_values(|w: WindowInfo| w@)
}

impl View for BackendOutcome {
    type V = Option<Seq<WinView>>;

    open spec fn view(&self) -> Option<Seq<WinView>> {
        match *self {
            BackendOutcome::Available(ws) => Some(win_views(ws@)),
            BackendOutcome::Unavailable => None,
        }
    }
}

pub open spec fn backends_view(bs: Seq<BackendOutcome>) -> Seq<Option<Seq<WinView>>> {
    bs.map_values(|b: BackendOutcome| b@)
}

/// How the owner of a resolved window relates to the target process.
#[derive(PartialEq, Eq, Structural, Clone, Copy, Debug)]
pub enum MatchKind {
    Exact,
    Descendant,
}

/// A resolved window and how its owner relates to the target process.
pub struct WindowMatch {
    pub window: WindowInfo,
    pub kind: MatchKind,
}

pub struct MatchView {
    pub window: WinView,
    pub kind: MatchKind,
}

impl View for WindowMatch {
    type V = MatchView;

    open spec fn view(&self) -> MatchView {
        MatchView { window: self.window@, kind: self.kind }
    }
}

/// The first window of the list owned by `t` exactly.
pub open spec fn first_exact(ws: Seq<WinView>, t: u32) -> Option<WinView>
    decreases ws.len(),
{
    if ws.len() == 0 {
        None
    } else if ws[0].pid == t {
        Some(ws[0])
    } else {
        first_exact(ws.drop_first(), t)
    }
}

/// The first window of the list whose owner lies in the family set.
pub open spec fn first_in_family(ws: Seq<WinView>, fam: Set<u32>) -> Option<WinView>
    decreases ws.len(),
{
    if ws.len() == 0 {
        None
    } else if fam.contains(ws[0].pid) {
        Some(ws[0])
    } else {
        first_in_family(ws.drop_first(), fam)
    }
}

/// The two-pass scan of one backend's list: the first window owned by the
/// target exactly; only if there is none, the first window owned by a
/// member of the target's family.
pub open spec fn scan_backend(ws: Seq<WinView>, t: u32, fam: Set<u32>) -> Option<MatchView> {
    if first_exact(ws, t) is Some {
        Some(MatchView { window: first_exact(ws, t)->0, kind: MatchKind::Exact })
    } else if first_in_family(ws, fam) is Some {
        Some(MatchView { window: first_in_family(ws, fam)->0, kind: MatchKind::Descendant })
    } else {
        None
    }
}

/// Resolution across the backends in priority order: an unavailable
/// backend is skipped, and the first backend whose scan matches decides;
/// when none matches, there is no window.
pub open spec fn resolve_over(bs: Seq<Option<Seq<WinView>>>, t: u32, fam: Set<u32>) -> Option<
    MatchView,
>
    decreases bs.len(),
{
    if bs.len() == 0 {
        None
    } else {
        match bs[0] {
            None => resolve_over(bs.drop_first(), t, fam),
            Some(ws) => match scan_backend(ws, t, fam) {
                Some(m) => Some(m),
                None => resolve_over(bs.drop_first(), t, fam),
            },
        }
    }
}

/// Exact-match precedence: when some window of a backend's list is owned
/// by the target pid itself, the scan of that backend yields an exact
/// match owned by the target, never a descendant match.
pub proof fn lemma_exact_match_precedence(ws: Seq<WinView>, t: u32, fam: Set<u32>)
    requires
        exists|k: int| 0 <= k < ws.len() && #[trigger] ws[k].pid == t,
    ensures
        scan_backend(ws, t, fam) is Some,
        scan_backend(ws, t, fam)->0.kind == MatchKind::Exact,
        scan_backend(ws, t, fam)->0.window.pid == t,
{
    lemma_first_exact_exists(ws, t);
}

proof fn lemma_first_exact_exists(ws: Seq<WinView>, t: u32)
    requires
        exists|k: int| 0 <= k < ws.len() && #[trigger] ws[k].pid == t,
    ensures
        first_exact(ws, t) is Some,
        first_exact(ws, t)->0.pid == t,
    decreases ws.len(),
{
    if ws[0].pid == t {
    } else {
        let k = choose|k: int| 0 <= k < ws.len() && #[trigger] ws[k].pid == t;
        assert(ws.drop_first()[k - 1].pid == t);
        lemma_first_exact_exists(ws.drop_first(), t);
    }
}

/// Backend fallback: an unavailable backend changes nothing; resolution
/// continues with the remaining backends exactly as if the unavailable
/// one were absent.
pub proof fn lemma_backend_fallback(bs: Seq<Option<Seq<WinView>>>, t: u32, fam: Set<u32>)
    requires
        bs.len() > 0,
        bs[0] is None,
    ensures
        resolve_over(bs, t, fam) == resolve_over(bs.drop_first(), t, fam),
{
}

/// Backend fallback, concretely: with the first backend unavailable and
/// the second matching, resolution returns the second backend's match.
pub proof fn lemma_backend_fallback_pair(ws: Seq<WinView>, t: u32, fam: Set<u32>)
    requires
        scan_backend(ws, t, fam) is Some,
    ensures
        resolve_over(seq![None, Some(ws)], t, fam) == scan_backend(ws, t, fam),
{
    let bs: Seq<Option<Seq<WinView>>> = seq![None, Some(ws)];
    let rest: Seq<Option<Seq<WinView>>> = seq![Some(ws)];
    assert(bs.len() == 2);
    assert(bs[0] is None);
    assert(bs.drop_first() =~= rest);
    assert(resolve_over(bs, t, fam) == resolve_over(rest, t, fam));
    assert(rest.len() == 1);
    assert(rest[0] == Some(ws));
    assert(resolve_over(rest, t, fam) == scan_backend(ws, t, fam));
}

/// Finds the window for `target_pid`: each backend in priority order, two
/// passes per backend, the exact owner preferred over a descendant owner
/// within the same backend; unavailable backends are skipped, and with no
/// match anywhere there is no window.
pub fn find_window_by_pid(
    target_pid: u32,
    index: &ProcessTreeIndex,
    backends: &Vec<BackendOutcome>,
) -> (r: Option<WindowMatch>)
    ensures
        match r {
            Some(m) => resolve_over(
                backends_view(backends@),
                target_pid,
                family_set(index.edges@, target_pid),
            ) == Some(m@),
            None => resolve_over(
                backends_view(backends@),
                target_pid,
                family_set(index.edges@, target_pid),
            ) is None,
        },
{
    let ghost fam = family_set(index.edges@, target_pid);
    let ghost bv = backends_view(backends@);
    let descs = index.descendants_of(target_pid);
    let mut b: usize = 0;
    proof {
        assert(bv.skip(0) =~= bv);
    }
    while b < backends.len()
        invariant
            bv == backends_view(backends@),
            fam == family_set(index.edges@, target_pid),
            forall|d: u32|
                descs@.contains(d) <==> descendant_set(index.edges@, target_pid).contains(d),
            0 <= b <= backends@.len(),
            resolve_over(bv, target_pid, fam) == resolve_over(
                bv.skip(b as int),
                target_pid,
                fam,
            ),
        decreases backends@.len() - b,
    {
        proof {
            assert(bv.len() == backends@.len());
            assert(bv.skip(b as int).len() == bv.len() - b);
            assert(bv.skip(b as int)[0] == bv[b as int]);
            assert(bv[b as int] == backends@[b as int]@);
            assert(bv.skip(b as int).drop_first() =~= bv.skip(b as int + 1));
        }
        let bo = &backends[b];
        match bo {
            BackendOutcome::Unavailable => {
                proof {
                    assert(backends@[b as int]@ is None);
                    assert(bv.skip(b as int)[0] is None);
                }
            },
            BackendOutcome::Available(ws) => {
                let ghost wsv = win_views(ws@);
                proof {
                    assert(backends@[b as int]@ == Some(wsv));
                    assert(bv.skip(b as int)[0] == Some(wsv));
                    assert(bv.skip(b as int).len() > 0);
                    assert(wsv.len() == ws@.len());
                    assert(wsv.skip(0) =~= wsv);
                }
                let mut i: usize = 0;
                while i < ws.len()
                    invariant
                        wsv == win_views(ws@),
                        bv == backends_view(backends@),
                        fam == family_set(index.edges@, target_pid),
                        0 <= b < backends@.len(),
                        bv.skip(b as int)[0] == Some(wsv),
                        resolve_over(bv, target_pid, fam) == resolve_over(
                            bv.skip(b as int),
                            target_pid,
                            fam,
                        ),
                        0 <= i <= ws@.len(),
                        first_exact(wsv, target_pid) == first_exact(
                            wsv.skip(i as int),
                            target_pid,
                        ),
                        forall|k: int| 0 <= k < i ==> #[trigger] wsv[k].pid != target_pid,
                    decreases ws@.len() - i,
                {
                    proof {
                        assert(wsv.skip(i as int)[0] == wsv[i as int]);
                        assert(wsv[i as int] == ws@[i as int]@);
                    }
                    if ws[i].pid == target_pid {
                        let found = WindowMatch { window: ws[i].clone(), kind: MatchKind::Exact };
                        proof {
                            assert(first_exact(wsv.skip(i as int), target_pid) == Some(
                                wsv[i as int],
                            ));
                            assert(scan_backend(wsv, target_pid, fam) == Some(found@));
                            assert(resolve_over(bv.skip(b as int), target_pid, fam) == Some(
                                found@,
                            ));
                        }
                        return Some(found);
                    }
                    proof {
                        assert(wsv.skip(i as int).drop_first() =~= wsv.skip(i as int + 1));
                    }
                    i += 1;
                }
                proof {
                    assert(wsv.skip(ws@.len() as int) =~= Seq::<WinView>::empty());
                    assert(first_exact(wsv, target_pid) is None);
                }
                let mut i2: usize = 0;
                proof {
                    assert(wsv.skip(0) =~= wsv);
                }
                while i2 < ws.len()
                    invariant
                        wsv == win_views(ws@),
                        fam == family_set(index.edges@, target_pid),
                        forall|d: u32|
                            descs@.contains(d) <==> descendant_set(
                                index.edges@,
                                target_pid,
                            ).contains(d),
                        first_exact(wsv, target_pid) is None,
                        resolve_over(bv, target_pid, fam) == resolve_over(
                            bv.skip(b as int),
                            target_pid,
                            fam,
                        ),
                        bv.skip(b as int)[0] == Some(wsv),
                        0 <= b < backends@.len(),
                        bv == backends_view(backends@),
                        0 <= i2 <= ws@.len(),
                        first_in_family(wsv, fam) == first_in_family(wsv.skip(i2 as int), fam),
                        forall|k: int| 0 <= k < i2 ==> !fam.contains(#[trigger] wsv[k].pid),
                    decreases ws@.len() - i2,
                {
                    proof {
                        assert(wsv.skip(i2 as int)[0] == wsv[i2 as int]);
                        assert(wsv[i2 as int] == ws@[i2 as int]@);
                    }
                    let wpid = ws[i2].pid;
                    if wpid == target_pid || contains_u32(&descs, wpid) {
                        let found = WindowMatch {
                            window: ws[i2].clone(),
                            kind: MatchKind::Descendant,
                        };
                        proof {
                            assert(fam.contains(wpid));
                            assert(first_in_family(wsv.skip(i2 as int), fam) == Some(
                                wsv[i2 as int],
                            ));
                            assert(scan_backend(wsv, target_pid, fam) == Some(found@));
                            assert(resolve_over(bv.skip(b as int), target_pid, fam) == Some(
                                found@,
                            ));
                        }
                        return Some(found);
                    }
                    proof {
                        assert(!fam.contains(wsv[i2 as int].pid));
                        assert(wsv.skip(i2 as int).drop_first() =~= wsv.skip(i2 as int + 1));
                    }
                    i2 += 1;
                }
                proof {
                    assert(wsv.skip(ws@.len() as int) =~= Seq::<WinView>::empty());
                    assert(first_in_family(wsv, fam) is None);
                    assert(scan_backend(wsv, target_pid, fam) is None);
                }
            },
        }
        b += 1;
    }
    proof {
        assert(bv.skip(backends@.len() as int) =~= Seq::<Option<Seq<WinView>>>::empty());
    }
    None
}

/// What the pid query's output parses to: the trimmed text as a decimal.
pub open spec fn spec_pid_output(s: Seq<char>) -> Option<u32> {
    spec_parse_u32(trim_ws(s))
}

/// Parses the output of the per-window pid query.
pub fn parse_pid_output(s: &str) -> (r: Option<u32>)
    ensures
        r == spec_pid_output(s@),
{
    let t = trim(s);
    parse_u32(t.as_str())
}

/// The window identifiers of the enumeration output: one per line, each
/// trimmed, empty lines skipped.
pub open spec fn spec_window_ids(s: Seq<char>) -> Seq<Seq<char>>
    decreases s.len(),
    via spec_window_ids_decreases
{
    if s.len() == 0 {
        Seq::empty()
    } else {
        let l = scan_to_char(s, '\n') as int;
        let t = trim_ws(s.take(l));
        let rest = if l < s.len() {
            spec_window_ids(s.skip(l + 1))
        } else {
            Seq::<Seq<char>>::empty()
        };
        if t.len() > 0 {
            seq![t] + rest
        } else {
            rest
        }
    }
}

#[via_fn]
proof fn spec_window_ids_decreases(s: Seq<char>) {
    if s.len() > 0 {
        lemma_scan_to_char_le(s, '\n');
    }
}

fn newline_at(s: &str, i: usize) -> (r: bool)
    requires
        i < s@.len(),
    ensures
        r == (s@[i as int] == '\n'),
{
    s.get_char(i) == '\n'
}

/// Splits the enumeration output into trimmed, non-empty window
/// identifiers, one per line.
pub fn parse_window_ids(s: &str) -> (r: Vec<String>)
    ensures
        views_of(r@) == spec_window_ids(s@),
{
    let n = s.unicode_len();
    let mut out: Vec<String> = Vec::new();
    let mut i: usize = 0;
    proof {
        assert(views_of(out@) =~= Seq::<Seq<char>>::empty());
        assert(s@.skip(0) =~= s@);
    }
    while i < n
        invariant
            n == s@.len(),
            0 <= i <= n,
            views_of(out@) + spec_window_ids(s@.skip(i as int)) == spec_window_ids(s@),
        decreases n - i,
    {
        let mut j: usize = i;
        while j < n && !newline_at(s, j)
            invariant
                n == s@.len(),
                i <= j <= n,
                forall|k: int| i <= k < j ==> #[trigger] s@[k] != '\n',
            decreases n - j,
        {
            j += 1;
        }
        let line = s.substring_char(i, j);
        let t = trim(line);
        let ghost rem = s@.skip(i as int);
        proof {
            assert forall|k: int| 0 <= k < j - i implies #[trigger] rem[k] != '\n' by {
                assert(rem[k] == s@[i + k]);
            }
            if (j as int - i as int) < rem.len() {
                assert(rem[j - i] == s@[j as int]);
            }
            lemma_scan_to_char_is(rem, '\n', j as int - i as int);
            assert(rem.take(j as int - i as int) =~= s@.subrange(i as int, j as int));
            if j < n {
                assert(rem.skip(j as int - i as int + 1) =~= s@.skip(j as int + 1));
            }
            assert(t@ == trim_ws(rem.take(j as int - i as int)));
        }
        let keep = !t.as_str().is_empty();
        let ghost prev = out@;
        if keep {
            out.push(t);
            proof {
                assert(views_of(out@) =~= views_of(prev) + seq![trim_ws(
                    rem.take(j as int - i as int),
                )]);
            }
        }
        proof {
            let tl = trim_ws(rem.take(j as int - i as int));
            let rest = if (j as int - i as int) < rem.len() {
                spec_window_ids(rem.skip(j as int - i as int + 1))
            } else {
                Seq::<Seq<char>>::empty()
            };
            assert(spec_window_ids(rem) == if tl.len() > 0 {
                seq![tl] + rest
            } else {
                rest
            });
            if keep {
                assert((views_of(prev) + seq![tl]) + rest =~= views_of(prev) + (seq![tl] + rest));
            }
        }
        if j < n {
            i = j + 1;
        } else {
            proof {
                assert(s@.skip(n as int) =~= Seq::<char>::empty());
                assert(views_of(out@) + spec_window_ids(s@.skip(n as int)) =~= views_of(out@));
            }
            i = n;
        }
    }
    proof {
        assert(s@.skip(n as int) =~= Seq::<char>::empty());
        assert(views_of(out@) + spec_window_ids(s@.skip(i as int)) =~= views_of(out@));
    }
    out
}

/// The class read from the window-property output: the text of the second
/// quoted field, `Unknown` when fewer than four quotes are present.
pub open spec fn spec_wm_class(s: Seq<char>) -> Seq<char> {
    let n = s.len() as int;
    let q1 = scan_to_char(s, '"') as int;
    if q1 >= n {
        "Unknown"@
    } else {
        let q2 = q1 + 1 + scan_to_char(s.skip(q1 + 1), '"') as int;
        if q2 >= n {
            "Unknown"@
        } else {
            let q3 = q2 + 1 + scan_to_char(s.skip(q2 + 1), '"') as int;
            if q3 >= n {
                "Unknown"@
            } else {
                let q4 = q3 + 1 + scan_to_char(s.skip(q3 + 1), '"') as int;
                if q4 >= n {
                    "Unknown"@
                } else {
                    s.subrange(q3 + 1, q4)
                }
            }
        }
    }
}

fn quote_at(s: &str, i: usize) -> (r: bool)
    requires
        i < s@.len(),
    ensures
        r == (s@[i as int] == '"'),
{
    s.get_char(i) == '"'
}

fn find_quote_from(s: &str, from: usize, n: usize) -> (r: usize)
    requires
        n == s@.len(),
        from <= n,
    ensures
        from <= r <= n,
        r as int == from + scan_to_char(s@.skip(from as int), '"'),
        r < n ==> s@[r as int] == '"',
{
    let mut j: usize = from;
    while j < n && !quote_at(s, j)
        invariant
            n == s@.len(),
            from <= j <= n,
            forall|k: int| from <= k < j ==> #[trigger] s@[k] != '"',
        decreases n - j,
    {
        j += 1;
    }
    proof {
        let rem = s@.skip(from as int);
        assert forall|k: int| 0 <= k < j - from implies #[trigger] rem[k] != '"' by {
            assert(rem[k] == s@[from + k]);
        }
        if (j as int - from as int) < rem.len() {
            assert(rem[j - from] == s@[j as int]);
        }
        lemma_scan_to_char_is(rem, '"', j as int - from as int);
    }
    j
}

/// Extracts the class from the window-property output: the second quoted
/// field, or `Unknown` when the output does not carry two quoted fields.
pub fn parse_wm_class(s: &str) -> (r: String)
    ensures
        r@ == spec_wm_class(s@),
{
    let n = s.unicode_len();
    let q1 = find_quote_from(s, 0, n);
    proof {
        assert(s@.skip(0) =~= s@);
    }
    if q1 >= n {
        return ("Unknown").to_owned();
    }
    let q2 = find_quote_from(s, q1 + 1, n);
    if q2 >= n {
        return ("Unknown").to_owned();
    }
    let q3 = find_quote_from(s, q2 + 1, n);
    if q3 >= n {
        return ("Unknown").to_owned();
    }
    let q4 = find_quote_from(s, q3 + 1, n);
    if q4 >= n {
        return ("Unknown").to_owned();
    }
    let piece = s.substring_char(q3 + 1, q4);
    piece.to_owned()
}

/// Whether a listing line is well-formed: at least four whitespace
/// separated fields, the third a decimal pid.
pub open spec fn spec_listing_line_ok(line: Seq<char>) -> bool {
    split_ws(line).len() >= 4 && spec_parse_u32(split_ws(line)[2]) is Some
}

/// The window a well-formed listing line describes: identifier, an
/// ignored desktop field, the owning pid, and every field after the pid
/// rejoined with single spaces as the title; this backend reports no
/// class.
pub open spec fn spec_listing_fields(line: Seq<char>) -> WinView
    recommends
        spec_listing_line_ok(line),
{
    WinView {
        window_id: split_ws(line)[0],
        title: join_space(split_ws(line).skip(3)),
        class: "Unknown"@,
        pid: spec_parse_u32(split_ws(line)[2])->0,
    }
}

/// The windows of a whole generic listing: one per well-formed line,
/// lines that do not parse silently skipped.
pub open spec fn spec_listing_windows(s: Seq<char>) -> Seq<WinView>
    decreases s.len(),
    via spec_listing_windows_decreases
{
    if s.len() == 0 {
        Seq::empty()
    } else {
        let l = scan_to_char(s, '\n') as int;
        let head = if spec_listing_line_ok(s.take(l)) {
            seq![spec_listing_fields(s.take(l))]
        } else {
            Seq::<WinView>::empty()
        };
        head + (if l < s.len() {
            spec_listing_windows(s.skip(l + 1))
        } else {
            Seq::<WinView>::empty()
        })
    }
}

#[via_fn]
proof fn spec_listing_windows_decreases(s: Seq<char>) {
    if s.len() > 0 {
        lemma_scan_to_char_le(s, '\n');
    }
}

/// Parses the generic window listing: one window per line that carries at
/// least four fields and a numeric pid; other lines are skipped.
pub fn parse_window_listing(s: &str) -> (r: Vec<WindowInfo>)
    ensures
        win_views(r@) == spec_listing_windows(s@),
{
    let n = s.unicode_len();
    let mut out: Vec<WindowInfo> = Vec::new();
    let mut i: usize = 0;
    proof {
        assert(win_views(out@) =~= Seq::<WinView>::empty());
        assert(s@.skip(0) =~= s@);
    }
    while i < n
        invariant
            n == s@.len(),
            0 <= i <= n,
            win_views(out@) + spec_listing_windows(s@.skip(i as int)) == spec_listing_windows(s@),
        decreases n - i,
    {
        let mut j: usize = i;
        while j < n && !newline_at(s, j)
            invariant
                n == s@.len(),
                i <= j <= n,
                forall|k: int| i <= k < j ==> #[trigger] s@[k] != '\n',
            decreases n - j,
        {
            j += 1;
        }
        let line = s.substring_char(i, j);
        let ghost rem = s@.skip(i as int);
        proof {
            assert forall|k: int| 0 <= k < j - i implies #[trigger] rem[k] != '\n' by {
                assert(rem[k] == s@[i + k]);
            }
            if (j as int - i as int) < rem.len() {
                assert(rem[j - i] == s@[j as int]);
            }
            lemma_scan_to_char_is(rem, '\n', j as int - i as int);
            assert(rem.take(j as int - i as int) =~= s@.subrange(i as int, j as int));
            if j < n {
                assert(rem.skip(j as int - i as int + 1) =~= s@.skip(j as int + 1));
            }
        }
        let ghost lv = s@.subrange(i as int, j as int);
        let toks = split_whitespace(line);
        let ghost prev = out@;
        if toks.len() >= 4 {
            proof {
                assert(views_of(toks@)[2] == toks@[2]@);
                assert(views_of(toks@)[0] == toks@[0]@);
            }
            match parse_u32(toks[2].as_str()) {
                Some(wpid) => {
                    let title = join_with_spaces(&toks, 3);
                    let wid = toks[0].clone();
                    let w = WindowInfo {
                        window_id: wid,
                        title,
                        class: ("Unknown").to_owned(),
                        pid: wpid,
                    };
                    proof {
                        assert(spec_listing_line_ok(lv));
                        assert(w@ == spec_listing_fields(lv));
                    }
                    out.push(w);
                    proof {
                        assert(win_views(out@) =~= win_views(prev) + seq![
                            spec_listing_fields(lv),
                        ]);
                    }
                },
                None => {
                    proof {
                        assert(!spec_listing_line_ok(lv));
                    }
                },
            }
        } else {
            proof {
                assert(!spec_listing_line_ok(lv));
            }
        }
        proof {
            let head = if spec_listing_line_ok(lv) {
                seq![spec_listing_fields(lv)]
            } else {
                Seq::<WinView>::empty()
            };
            let rest = if (j as int - i as int) < rem.len() {
                spec_listing_windows(rem.skip(j as int - i as int + 1))
            } else {
                Seq::<WinView>::empty()
            };
            assert(rem.take(j as int - i as int) == lv);
            assert(spec_listing_windows(rem) == head + rest);
            if spec_listing_line_ok(lv) {
                assert((win_views(prev) + seq![spec_listing_fields(lv)]) + rest =~= win_views(prev)
                    + (head + rest));
            } else {
                assert(win_views(out@) + rest =~= win_views(out@) + (head + rest));
            }
        }
        if j < n {
            i = j + 1;
        } else {
            proof {
                assert(s@.skip(n as int) =~= Seq::<char>::empty());
                assert(win_views(out@) + spec_listing_windows(s@.skip(n as int)) =~= win_views(
                    out@,
                ));
            }
            i = n;
        }
    }
    proof {
        assert(s@.skip(n as int) =~= Seq::<char>::empty());
        assert(win_views(out@) + spec_listing_windows(s@.skip(i as int)) =~= win_views(out@));
    }
    out
}

/// What listing everything shows: the first backend's windows when it is
/// available and saw any, else the second backend's when available, else
/// nothing.
pub open spec fn spec_list_all(a: Option<Seq<WinView>>, b: Option<Seq<WinView>>) -> Seq<WinView> {
    if a is Some && a->0.len() > 0 {
        a->0
    } else {
        match b {
            Some(ws) => ws,
            None => Seq::empty(),
        }
    }
}

fn clone_windows(ws: &Vec<WindowInfo>) -> (r: Vec<WindowInfo>)
    ensures
        r@ == ws@,
{
    let mut out: Vec<WindowInfo> = Vec::new();
    let mut i: usize = 0;
    while i < ws.len()
        invariant
            0 <= i <= ws@.len(),
            out@ == ws@.take(i as int),
        decreases ws@.len() - i,
    {
        out.push(ws[i].clone());
        proof {
            assert(out@ =~= ws@.take(i as int + 1));
        }
        i += 1;
    }
    proof {
        assert(ws@.take(ws@.len() as int) =~= ws@);
    }
    out
}

/// All windows the host shows: the primary backend's list when it is
/// available and non-empty, otherwise the fallback backend's list.
pub fn list_all_windows(primary: &BackendOutcome, fallback: &BackendOutcome) -> (r: Vec<
    WindowInfo,
>)
    ensures
        win_views(r@) == spec_list_all(primary@, fallback@),
{
    match primary {
        BackendOutcome::Available(ws) => {
            if ws.len() > 0 {
                return clone_windows(ws);
            }
        },
        BackendOutcome::Unavailable => {},
    }
    match fallback {
        BackendOutcome::Available(ws) => clone_windows(ws),
        BackendOutcome::Unavailable => {
            let r: Vec<WindowInfo> = Vec::new();
            proof {
                assert(win_views(r@) =~= Seq::<WinView>::empty());
            }
            r
        },
    }
}

} // verus!
