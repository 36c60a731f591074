//! Slash-separated remote paths, independent of the local platform's path rules.

use vstd::prelude::*;

verus! {

/// Either of the two characters accepted as a separator on input.
pub open spec fn is_sep(c: char) -> bool {
    c == '/' || c == '\\'
}

/// The unrooted part of a parsed path, built one input character at a time:
/// separators are dropped, and a single `/` is put between two segments.
pub open spec fn norm(s: Seq<char>) -> Seq<char>
    decreases s.len(),
{
    if s.len() == 0 {
        seq![]
    } else {
        let p = s.drop_last();
        let c = s.last();
        if is_sep(c) {
            norm(p)
        } else if p.len() > 0 && is_sep(p.last()) && norm(p).len() > 0 {
            norm(p) + seq!['/', c]
        } else {
            norm(p).push(c)
        }
    }
}

/// Whether a canonical path is rooted: it begins with `/`.
pub open spec fn starts_rooted(s: Seq<char>) -> bool {
    s.len() > 0 && s[0] == '/'
}

/// Whether a raw path is rooted: it begins with either separator.
pub open spec fn raw_rooted(s: Seq<char>) -> bool {
    s.len() > 0 && is_sep(s[0])
}

/// The canonical form of a raw path.
pub open spec fn parse_view(s: Seq<char>) -> Seq<char> {
    if raw_rooted(s) {
        seq!['/'] + norm(s)
    } else {
        norm(s)
    }
}

/// A path body in canonical form: only `/` separates, never at either end,
/// never two in a row.
pub open spec fn canonical(t: Seq<char>) -> bool {
    forall|i: int|
        0 <= i < t.len() ==> #[trigger] t[i] != '\\' && (t[i] == '/' ==> (0 < i && i + 1 < t.len()
            && t[i - 1] != '/' && t[i + 1] != '/'))
}

/// A canonical path: a canonical body, with `/` in front when rooted.
pub open spec fn well_formed(t: Seq<char>) -> bool {
    canonical(t) || (t.len() > 0 && t[0] == '/' && canonical(t.drop_first()))
}

pub proof fn lemma_norm_canonical(s: Seq<char>)
    ensures
        canonical(norm(s)),
    decreases s.len(),
{
    if s.len() > 0 {
        let p = s.drop_last();
        lemma_norm_canonical(p);
        let n = norm(p);
        let c = s.last();
        if is_sep(c) {
        } else if p.len() > 0 && is_sep(p.last()) && n.len() > 0 {
            let t = n + seq!['/', c];
            assert forall|i: int| 0 <= i < t.len() implies #[trigger] t[i] != '\\' && (t[i] == '/'
                ==> (0 < i && i + 1 < t.len() && t[i - 1] != '/' && t[i + 1] != '/')) by {
                if i < n.len() {
                    assert(t[i] == n[i]);
                    if i + 1 < n.len() {
                        assert(t[i + 1] == n[i + 1]);
                    }
                    if i > 0 {
                        assert(t[i - 1] == n[i - 1]);
                    }
                    assert(n[n.len() - 1] != '/');
                }
                if i == n.len() {
                    assert(t[i - 1] == n[n.len() - 1]);
                }
            }
        } else {
            let t = n.push(c);
            assert forall|i: int| 0 <= i < t.len() implies #[trigger] t[i] != '\\' && (t[i] == '/'
                ==> (0 < i && i + 1 < t.len() && t[i - 1] != '/' && t[i + 1] != '/')) by {
                if i < n.len() {
                    assert(t[i] == n[i]);
                    if i + 1 < n.len() {
                        assert(t[i + 1] == n[i + 1]);
                    }
                    if i > 0 {
                        assert(t[i - 1] == n[i - 1]);
                    }
                    assert(n[n.len() - 1] != '/');
                }
            }
        }
    }
}

/// A body that may still end in one `/`: no `\\`, no `/` in front, no `//`.
spec fn open_body(t: Seq<char>) -> bool {
    forall|i: int|
        0 <= i < t.len() ==> #[trigger] t[i] != '\\' && (t[i] == '/' ==> (0 < i && t[i - 1]
            != '/'))
}

proof fn lemma_norm_open_body(t: Seq<char>)
    requires
        open_body(t),
    ensures
        norm(t) == (if t.len() > 0 && t.last() == '/' {
            t.drop_last()
        } else {
            t
        }),
    decreases t.len(),
{
    if t.len() > 0 {
        let p = t.drop_last();
        assert forall|i: int| 0 <= i < p.len() implies #[trigger] p[i] != '\\' && (p[i] == '/'
            ==> (0 < i && p[i - 1] != '/')) by {
            assert(p[i] == t[i]);
            if i > 0 {
                assert(p[i - 1] == t[i - 1]);
            }
        }
        lemma_norm_open_body(p);
        let c = t.last();
        assert(t[t.len() - 1] == c);
        if c == '/' {
            if p.len() > 0 {
                assert(p.last() == t[t.len() - 2]);
            }
        } else {
            assert(c != '\\');
            if p.len() > 0 && p.last() == '/' {
                assert(p[p.len() - 1] == '/');
                assert(p.len() >= 2);
                assert(p[p.len() - 2] != '/');
                assert(norm(p) == p.drop_last());
                assert(norm(p)[norm(p).len() - 1] == p[p.len() - 2]);
                assert(norm(p) + seq!['/', c] =~= t);
            } else {
                assert(p.push(c) =~= t);
            }
        }
    }
}

/// A canonical body is its own normal form.
pub proof fn lemma_norm_canonical_fixed(t: Seq<char>)
    requires
        canonical(t),
    ensures
        norm(t) == t,
{
    assert forall|i: int| 0 <= i < t.len() implies #[trigger] t[i] != '\\' && (t[i] == '/' ==> (0
        < i && t[i - 1] != '/')) by {}
    lemma_norm_open_body(t);
    if t.len() > 0 {
        assert(t[t.len() - 1] != '/');
    }
}

/// A leading separator does not change the body.
pub proof fn lemma_norm_drop_leading(c: char, t: Seq<char>)
    requires
        is_sep(c),
    ensures
        norm(seq![c] + t) == norm(t),
    decreases t.len(),
{
    let s = seq![c] + t;
    if t.len() == 0 {
        assert(s =~= seq![c]);
        assert(s.drop_last() =~= Seq::<char>::empty());
        assert(s.last() == c);
        assert(norm(s) == norm(s.drop_last()));
    } else {
        let tp = t.drop_last();
        assert(s.drop_last() =~= seq![c] + tp);
        assert(s.last() == t.last());
        lemma_norm_drop_leading(c, tp);
        assert(norm(seq![c] + tp) == norm(tp));
        if tp.len() > 0 {
            assert((seq![c] + tp).last() == tp.last());
        } else {
            assert(seq![c] + tp =~= seq![c]);
            assert(seq![c].drop_last() =~= Seq::<char>::empty());
            assert(norm(seq![c]) == norm(Seq::<char>::empty()));
        }
    }
}

/// Parsing twice gives what parsing once gives.
pub proof fn law_parse_idempotent(s: Seq<char>)
    ensures
        parse_view(parse_view(s)) == parse_view(s),
{
    let n = norm(s);
    lemma_norm_canonical(s);
    lemma_norm_canonical_fixed(n);
    if raw_rooted(s) {
        lemma_norm_drop_leading('/', n);
        assert((seq!['/'] + n)[0] == '/');
    } else if n.len() > 0 {
        assert(n[0] != '/' && n[0] != '\\');
    }
}

/// A path that joins a canonical body after another, with one `/` between, is canonical.
proof fn lemma_canonical_concat(x: Seq<char>, o: Seq<char>)
    requires
        canonical(x),
        canonical(o),
        x.len() > 0,
        o.len() > 0,
    ensures
        canonical(x + seq!['/'] + o),
{
    let t = x + seq!['/'] + o;
    let m = x.len() as int;
    assert(x[m - 1] != '/');
    assert(o[0] != '/');
    assert forall|i: int| 0 <= i < t.len() implies #[trigger] t[i] != '\\' && (t[i] == '/' ==> (0
        < i && i + 1 < t.len() && t[i - 1] != '/' && t[i + 1] != '/')) by {
        if i < m {
            assert(t[i] == x[i]);
            if i + 1 < m {
                assert(t[i + 1] == x[i + 1]);
            }
            if i > 0 {
                assert(t[i - 1] == x[i - 1]);
            }
        } else if i == m {
            assert(t[i - 1] == x[m - 1]);
            assert(t[i + 1] == o[0]);
        } else {
            assert(t[i] == o[i - m - 1]);
            if i + 1 < t.len() {
                assert(t[i + 1] == o[i - m]);
            }
            if i - 1 > m {
                assert(t[i - 1] == o[i - m - 2]);
            }
        }
    }
}

/// What parsing gives is a canonical path.
pub proof fn lemma_parse_well_formed(s: Seq<char>)
    ensures
        well_formed(parse_view(s)),
{
    lemma_norm_canonical(s);
    if raw_rooted(s) {
        assert((seq!['/'] + norm(s)).drop_first() =~= norm(s));
    }
}

/// Joining a raw path `b` onto the canonical path `a`.
pub open spec fn join_view(a: Seq<char>, b: Seq<char>) -> Seq<char> {
    let o = parse_view(b);
    if starts_rooted(o) || a.len() == 0 {
        o
    } else if o.len() == 0 {
        a
    } else if a == seq!['/'] {
        a + o
    } else {
        a + seq!['/'] + o
    }
}

proof fn lemma_join_well_formed(a: Seq<char>, b: Seq<char>)
    requires
        well_formed(a),
    ensures
        well_formed(join_view(a, b)),
{
    let o = parse_view(b);
    lemma_parse_well_formed(b);
    lemma_norm_canonical(b);
    if !(starts_rooted(o) || a.len() == 0 || o.len() == 0) {
        assert(o == norm(b));
        if a == seq!['/'] {
            assert((a + o).drop_first() =~= o);
        } else if canonical(a) {
            lemma_canonical_concat(a, o);
        } else {
            let n = a.drop_first();
            assert(n.len() > 0) by {
                if n.len() == 0 {
                    assert(a =~= seq!['/']);
                }
            }
            lemma_canonical_concat(n, o);
            assert((a + seq!['/'] + o).drop_first() =~= n + seq!['/'] + o);
        }
    }
}

/// A rooted right-hand side replaces the left-hand side entirely.
pub proof fn law_join_rooted(a: Seq<char>, b: Seq<char>)
    requires
        raw_rooted(b),
    ensures
        join_view(a, b) == parse_view(b),
{
    assert((seq!['/'] + norm(b))[0] == '/');
}

/// An empty operand on either side is absorbed.
pub proof fn law_join_empty(a: Seq<char>, b: Seq<char>)
    ensures
        join_view(parse_view(a), seq![]) == parse_view(a),
        join_view(seq![], b) == parse_view(b),
{
    let e = Seq::<char>::empty();
    assert(norm(e) == e);
    assert(!raw_rooted(e));
    assert(parse_view(e) == e);
}

/// Index of the last `/` in `p`, or -1 when there is none.
pub open spec fn last_slash(p: Seq<char>) -> int
    decreases p.len(),
{
    if p.len() == 0 {
        -1
    } else if p.last() == '/' {
        p.len() - 1
    } else {
        last_slash(p.drop_last())
    }
}

proof fn lemma_last_slash_range(p: Seq<char>)
    ensures
        -1 <= last_slash(p) < p.len(),
        last_slash(p) >= 0 ==> p[last_slash(p)] == '/',
        starts_rooted(p) ==> last_slash(p) >= 0,
    decreases p.len(),
{
    if p.len() > 0 && p.last() != '/' {
        lemma_last_slash_range(p.drop_last());
        if p.len() > 1 {
            assert(p.drop_last()[0] == p[0]);
        }
    }
}

/// The ancestors of a path, from the path itself toward the root: each step
/// cuts at the last `/`; a rooted path ends with `/`, an unrooted one with its
/// first segment.
pub open spec fn ancestors_view(p: Seq<char>) -> Seq<Seq<char>>
    decreases p.len(),
{
    let k = last_slash(p);
    if 0 < k < p.len() {
        seq![p] + ancestors_view(p.subrange(0, k))
    } else if k == 0 && p.len() > 1 {
        seq![p, seq!['/']]
    } else {
        seq![p]
    }
}

/// The ancestors of a non-empty path are non-empty; the first is the path itself.
pub proof fn lemma_ancestors_nonempty(p: Seq<char>)
    requires
        p.len() > 0,
    ensures
        ancestors_view(p)[0] == p,
        forall|i: int|
            0 <= i < ancestors_view(p).len() ==> #[trigger] ancestors_view(p)[i].len() > 0,
    decreases p.len(),
{
    let k = last_slash(p);
    lemma_last_slash_range(p);
    if 0 < k < p.len() {
        lemma_ancestors_nonempty(p.subrange(0, k));
        let rest = ancestors_view(p.subrange(0, k));
        assert forall|i: int| 0 <= i < ancestors_view(p).len() implies #[trigger] ancestors_view(
            p,
        )[i].len() > 0 by {
            if i > 0 {
                assert(ancestors_view(p)[i] == rest[i - 1]);
            }
        }
    }
}

/// Every ancestor after the first is strictly shorter than the path: the
/// path itself appears only first.
pub proof fn law_ancestors_shorter(p: Seq<char>)
    ensures
        ancestors_view(p)[0] == p,
        forall|i: int|
            1 <= i < ancestors_view(p).len() ==> #[trigger] ancestors_view(p)[i].len() < p.len(),
    decreases p.len(),
{
    let k = last_slash(p);
    lemma_last_slash_range(p);
    if 0 < k < p.len() {
        let q = p.subrange(0, k);
        law_ancestors_shorter(q);
        let a = ancestors_view(p);
        let b = ancestors_view(q);
        assert forall|i: int| 1 <= i < a.len() implies #[trigger] a[i].len() < p.len() by {
            assert(a[i] == b[i - 1]);
        }
    }
}

/// The ancestors of a rooted path end with the root `/`; those of an
/// unrooted path end with an element that holds no `/`.
pub proof fn law_ancestors_termination(p: Seq<char>)
    requires
        p.len() > 0,
    ensures
        starts_rooted(p) ==> ancestors_view(p).last() == seq!['/'],
        !starts_rooted(p) ==> last_slash(ancestors_view(p).last()) == -1,
    decreases p.len(),
{
    let k = last_slash(p);
    lemma_last_slash_range(p);
    if 0 < k < p.len() {
        let q = p.subrange(0, k);
        assert(q[0] == p[0]);
        law_ancestors_termination(q);
        assert(ancestors_view(p).last() == ancestors_view(q).last());
    } else if k == 0 {
        if p.len() == 1 {
            assert(p =~= seq!['/']);
        } else {
            assert(ancestors_view(p) == seq![p, seq!['/']]);
            assert(seq![p, seq!['/']].last() == seq!['/']);
        }
    }
}

/// The segments of a raw path, in order: the maximal runs of characters that
/// hold no separator.
pub open spec fn segments(s: Seq<char>) -> Seq<Seq<char>>
    decreases s.len(),
{
    if s.len() == 0 {
        seq![]
    } else {
        let p = s.drop_last();
        let c = s.last();
        let ss = segments(p);
        if is_sep(c) {
            ss
        } else if p.len() > 0 && !is_sep(p.last()) && ss.len() > 0 {
            ss.update(ss.len() - 1, ss.last().push(c))
        } else {
            ss.push(seq![c])
        }
    }
}

/// Segments joined with one `/` between each two.
pub open spec fn join_segments(ss: Seq<Seq<char>>) -> Seq<char>
    decreases ss.len(),
{
    if ss.len() == 0 {
        seq![]
    } else if ss.len() == 1 {
        ss[0]
    } else {
        join_segments(ss.drop_last()) + seq!['/'] + ss.last()
    }
}

proof fn lemma_segments_shape(s: Seq<char>)
    ensures
        forall|i: int| 0 <= i < segments(s).len() ==> #[trigger] segments(s)[i].len() > 0,
        s.len() > 0 && !is_sep(s.last()) ==> segments(s).len() > 0,
    decreases s.len(),
{
    if s.len() > 0 {
        let p = s.drop_last();
        lemma_segments_shape(p);
        let ss = segments(p);
        let c = s.last();
        if !is_sep(c) && p.len() > 0 && !is_sep(p.last()) && ss.len() > 0 {
            let t = ss.update(ss.len() - 1, ss.last().push(c));
            assert forall|i: int| 0 <= i < t.len() implies #[trigger] t[i].len() > 0 by {
                if i < ss.len() - 1 {
                    assert(t[i] == ss[i]);
                }
            }
        } else if !is_sep(c) {
            let t = ss.push(seq![c]);
            assert forall|i: int| 0 <= i < t.len() implies #[trigger] t[i].len() > 0 by {
                if i < ss.len() {
                    assert(t[i] == ss[i]);
                }
            }
        }
    }
}

proof fn lemma_join_segments_empty(ss: Seq<Seq<char>>)
    requires
        forall|i: int| 0 <= i < ss.len() ==> #[trigger] ss[i].len() > 0,
    ensures
        (join_segments(ss).len() == 0) == (ss.len() == 0),
{
    if ss.len() == 1 {
        assert(ss[0].len() > 0);
    }
}

/// Parsing splits at both separators, drops the empty pieces and joins the
/// rest with `/`: the body of a parsed path is its segments so joined.
pub proof fn law_norm_joins_segments(s: Seq<char>)
    ensures
        norm(s) == join_segments(segments(s)),
    decreases s.len(),
{
    if s.len() > 0 {
        let p = s.drop_last();
        let c = s.last();
        let ss = segments(p);
        law_norm_joins_segments(p);
        lemma_segments_shape(p);
        lemma_join_segments_empty(ss);
        if !is_sep(c) {
            if p.len() > 0 && !is_sep(p.last()) && ss.len() > 0 {
                let t = ss.update(ss.len() - 1, ss.last().push(c));
                if ss.len() > 1 {
                    assert(t.drop_last() =~= ss.drop_last());
                }
                assert(join_segments(t) =~= join_segments(ss).push(c));
            } else {
                let t = ss.push(seq![c]);
                if ss.len() > 0 {
                    assert(t.drop_last() =~= ss);
                    assert(p.len() > 0 && is_sep(p.last()));
                } else {
                    assert(join_segments(t) =~= seq![c]);
                }
            }
        }
    }
}

/// The character views of a sequence of strings.
pub open spec fn views(v: Seq<String>) -> Seq<Seq<char>> {
    v.map_values(|x: String| x@)
}

/// A canonical path string.
#[derive(Clone, Debug)]
pub struct SimplePath {
    buf: String,
}

impl View for SimplePath {
    type V = Seq<char>;

    closed spec fn view(&self) -> Seq<char> {
        self.buf@
    }
}

/// Index of the last `/` among the first `end` characters of `s`.
fn rfind_slash(s: &str, end: usize) -> (r: Option<usize>)
    requires
        end <= s@.len(),
    ensures
        r matches Some(k) ==> k == last_slash(s@.subrange(0, end as int)),
        r is None ==> last_slash(s@.subrange(0, end as int)) == -1,
{
    let mut i: usize = end;
    while i > 0
        invariant
            i <= end <= s@.len(),
            last_slash(s@.subrange(0, end as int)) == last_slash(s@.subrange(0, i as int)),
        decreases i,
    {
        let ghost p = s@.subrange(0, i as int);
        assert(p.drop_last() =~= s@.subrange(0, i - 1));
        if s.get_char(i - 1) == '/' {
            return Some(i - 1);
        }
        i = i - 1;
    }
    None
}

impl SimplePath {
    /// Whether this value holds a canonical path.
    pub open spec fn wf(&self) -> bool {
        well_formed(self@)
    }

    /// The segments of `r`: it is split at both separators and empty pieces are dropped.
    pub fn split(r: &str) -> (v: Vec<String>)
        ensures
            views(v@) == segments(r@),
    {
        let n = r.unicode_len();
        let mut out: Vec<String> = Vec::new();
        let mut start: usize = 0;
        let mut i: usize = 0;
        while i < n
            invariant
                n == r@.len(),
                start <= i <= n,
                start == 0 || is_sep(r@[start - 1]),
                forall|j: int| start <= j < i ==> !is_sep(#[trigger] r@[j]),
                segments(r@.subrange(0, i as int)) == views(out@) + (if start < i {
                    seq![r@.subrange(start as int, i as int)]
                } else {
                    seq![]
                }),
            decreases n - i,
        {
            let c = r.get_char(i);
            let ghost p = r@.subrange(0, i as int);
            let ghost cur = r@.subrange(start as int, i as int);
            assert(r@.subrange(0, i + 1).drop_last() =~= p);
            assert(r@.subrange(0, i + 1).last() == c);
            if c == '/' || c == '\\' {
                let ghost before = out@;
                if start < i {
                    let seg = String::from_str(r.substring_char(start, i));
                    out.push(seg);
                    assert(views(out@) =~= views(before).push(cur));
                }
                assert(views(out@) =~= views(out@) + seq![]);
                start = i + 1;
            } else {
                proof {
                    let ss = segments(p);
                    if start < i {
                        assert(p.last() == r@[i - 1]);
                        assert(ss =~= views(out@) + seq![cur]);
                        assert(r@.subrange(start as int, i + 1) =~= cur.push(c));
                        assert(ss.update(ss.len() - 1, ss.last().push(c)) =~= views(out@) + seq![
                            r@.subrange(start as int, i + 1)]);
                    } else {
                        if i > 0 {
                            assert(p.last() == r@[i - 1]);
                        }
                        assert(ss =~= views(out@));
                        assert(r@.subrange(start as int, i + 1) =~= seq![c]);
                        assert(ss.push(seq![c]) =~= views(out@) + seq![
                            r@.subrange(start as int, i + 1)]);
                    }
                }
            }
            i = i + 1;
        }
        let ghost before = out@;
        if start < n {
            let seg = String::from_str(r.substring_char(start, n));
            out.push(seg);
            assert(views(out@) =~= views(before).push(r@.subrange(start as int, n as int)));
        } else {
            assert(views(out@) =~= views(out@) + seq![]);
        }
        assert(r@.subrange(0, n as int) =~= r@);
        out
    }

    /// Parses `r`: splits it at both separators, drops empty segments and
    /// joins the rest with `/`; a leading separator of either kind makes the
    /// result rooted, with a leading `/`.
    pub fn new(r: &str) -> (p: SimplePath)
        ensures
            p@ == parse_view(r@),
            p.wf(),
    {
        proof {
            reveal_strlit("/");
            lemma_parse_well_formed(r@);
        }
        let n = r.unicode_len();
        let mut body = String::new();
        let mut i: usize = 0;
        while i < n
            invariant
                n == r@.len(),
                i <= n,
                body@ == norm(r@.subrange(0, i as int)),
            decreases n - i,
        {
            let c = r.get_char(i);
            let ghost p = r@.subrange(0, i as int);
            assert(r@.subrange(0, i + 1).drop_last() =~= p);
            assert(r@.subrange(0, i + 1).last() == c);
            if c != '/' && c != '\\' {
                let after_sep = i > 0 && {
                    let d = r.get_char(i - 1);
                    d == '/' || d == '\\'
                };
                if i > 0 {
                    assert(p.last() == r@[i - 1]);
                }
                let piece = r.substring_char(i, i + 1);
                assert(piece@ =~= seq![c]);
                if after_sep && body.as_str().unicode_len() > 0 {
                    proof {
                        reveal_strlit("/");
                    }
                    body.append("/");
                    body.append(piece);
                    assert(body@ =~= norm(p) + seq!['/', c]);
                } else {
                    body.append(piece);
                }
            }
            i = i + 1;
        }
        assert(r@.subrange(0, n as int) =~= r@);
        if n > 0 && (r.get_char(0) == '/' || r.get_char(0) == '\\') {
            SimplePath { buf: String::from_str("/").concat(body.as_str()) }
        } else {
            SimplePath { buf: body }
        }
    }

    /// The path as a string.
    pub fn as_str(&self) -> (r: &str)
        ensures
            r@ == self@,
    {
        self.buf.as_str()
    }

    /// Whether the path begins with `/`.
    fn is_rooted(&self) -> (b: bool)
        ensures
            b == starts_rooted(self@),
    {
        let s = self.buf.as_str();
        s.unicode_len() > 0 && s.get_char(0) == '/'
    }

    /// Joins `r` onto this path: a rooted `r` replaces it, an empty operand is
    /// absorbed, and otherwise the two are joined with one `/`.
    pub fn join(&self, r: &str) -> (p: SimplePath)
        requires
            self.wf(),
        ensures
            p@ == join_view(self@, r@),
            p.wf(),
    {
        proof {
            reveal_strlit("/");
            lemma_join_well_formed(self@, r@);
        }
        let other = SimplePath::new(r);
        let p = if other.is_rooted() || self.buf.as_str().unicode_len() == 0 {
            other
        } else if other.buf.as_str().unicode_len() == 0 {
            SimplePath { buf: String::from_str(self.as_str()) }
        } else if self.buf.as_str().unicode_len() == 1 && self.buf.as_str().get_char(0) == '/' {
            assert(self@ =~= seq!['/']);
            SimplePath { buf: String::from_str(self.as_str()).concat(other.as_str()) }
        } else {
            proof {
                if self@.len() == 1 {
                    assert(self@ != seq!['/']);
                }
            }
            let mut buf = String::from_str(self.as_str());
            buf.append("/");
            buf.append(other.as_str());
            SimplePath { buf }
        };
        assert(well_formed(join_view(self@, r@)));
        assert(p@ == join_view(self@, r@));
        p
    }

    /// The ancestors of this path, from the path itself toward the root.
    pub fn ancestors(&self) -> (v: Vec<String>)
        ensures
            views(v@) == ancestors_view(self@),
    {
        proof {
            reveal_strlit("/");
        }
        let s = self.buf.as_str();
        assert(s@ == self@);
        let n = s.unicode_len();
        let mut out: Vec<String> = Vec::new();
        let mut e: usize = n;
        assert(s@.subrange(0, n as int) =~= s@);
        assert(views(out@) =~= Seq::<Seq<char>>::empty());
        assert(views(out@) + ancestors_view(s@) =~= ancestors_view(s@));
        loop
            invariant
                n == s@.len(),
                s@ == self@,
                e <= n,
                views(out@) + ancestors_view(s@.subrange(0, e as int)) == ancestors_view(s@),
            decreases e,
        {
            let ghost cur = s@.subrange(0, e as int);
            let ghost before = out@;
            out.push(String::from_str(s.substring_char(0, e)));
            assert(views(out@) =~= views(before).push(cur));
            proof {
                lemma_last_slash_range(cur);
            }
            match rfind_slash(s, e) {
                Some(k) => {
                    if k > 0 {
                        assert(cur.subrange(0, k as int) =~= s@.subrange(0, k as int));
                        assert(views(out@) + ancestors_view(s@.subrange(0, k as int)) =~= views(
                            before,
                        ) + ancestors_view(cur));
                        e = k;
                    } else {
                        if e > 1 {
                            proof {
                                reveal_strlit("/");
                            }
                            let root = String::from_str("/");
                            assert(root@ =~= seq!['/']);
                            let ghost mid = out@;
                            out.push(root);
                            assert(views(out@) =~= views(mid).push(seq!['/']));
                            assert(views(out@) =~= views(before) + ancestors_view(cur));
                        } else {
                            assert(views(out@) =~= views(before) + ancestors_view(cur));
                        }
                        return out;
                    }
                },
                None => {
                    assert(views(out@) =~= views(before) + ancestors_view(cur));
                    return out;
                },
            }
        }
    }
}

/// Number of tokens that joining `n` parts produces: the parts and a `/` between each two.
pub open spec fn token_count(n: nat) -> nat {
    if n == 0 {
        0
    } else {
        (2 * n - 1) as nat
    }
}

/// Token `i` of joining `parts`: parts at even positions, `/` at odd ones.
pub open spec fn token(parts: Seq<Seq<char>>, i: int) -> Seq<char> {
    if i % 2 == 0 {
        parts[i / 2]
    } else {
        seq!['/']
    }
}

/// The first `k` tokens of joining `parts`, concatenated.
pub open spec fn tokens_concat(parts: Seq<Seq<char>>, k: nat) -> Seq<char>
    decreases k,
{
    if k == 0 {
        seq![]
    } else {
        tokens_concat(parts, (k - 1) as nat) + token(parts, k - 1)
    }
}

proof fn lemma_tokens_prefix(parts: Seq<Seq<char>>, n: nat, k: nat)
    requires
        n <= parts.len(),
        k < 2 * n,
    ensures
        tokens_concat(parts, k) == tokens_concat(parts.subrange(0, n as int), k),
    decreases k,
{
    if k > 0 {
        lemma_tokens_prefix(parts, n, (k - 1) as nat);
        let i = k - 1;
        if i % 2 == 0 {
            assert(i / 2 < n);
            assert(parts.subrange(0, n as int)[i / 2] == parts[i / 2]);
        }
    }
}

/// Handing out every token of a joiner and concatenating them gives its
/// parts joined with `/`.
pub proof fn law_joiner_tokens_join(parts: Seq<Seq<char>>)
    ensures
        tokens_concat(parts, token_count(parts.len())) == join_segments(parts),
    decreases parts.len(),
{
    let n = parts.len();
    if n == 1 {
        assert(tokens_concat(parts, 0) =~= seq![]);
        assert(tokens_concat(parts, 1) =~= parts[0]);
    } else if n > 1 {
        let q = parts.drop_last();
        law_joiner_tokens_join(q);
        let m = (2 * n - 3) as nat;
        lemma_tokens_prefix(parts, (n - 1) as nat, m);
        assert(parts.subrange(0, n - 1) =~= q);
        assert(token_count(q.len()) == m);
        assert(token_count(n) == m + 2);
        assert(token(parts, m as int) == seq!['/']) by {
            assert((m as int) % 2 == 1);
        }
        assert(token(parts, m + 1 as int) == parts.last()) by {
            assert((m + 1) % 2 == 0);
            assert((m + 1) / 2 == n - 1);
        }
        let m1 = (m + 1) as nat;
        let m2 = (m + 2) as nat;
        assert(tokens_concat(parts, m1) == tokens_concat(parts, m) + token(parts, m as int));
        assert(tokens_concat(parts, m2) == tokens_concat(parts, m1) + token(parts, m1 as int));
        assert(tokens_concat(parts, m2) =~= join_segments(q) + seq!['/'] + parts.last());
    }
}

/// Hands out the given parts one at a time with a `/` token between each two.
pub struct PathJoiner {
    parts: Vec<String>,
    idx: usize,
    sep_due: bool,
}

impl PathJoiner {
    /// The parts being joined.
    pub closed spec fn parts(&self) -> Seq<Seq<char>> {
        views(self.parts@)
    }

    /// How many tokens have been handed out.
    pub closed spec fn position(&self) -> nat {
        if self.sep_due {
            (2 * self.idx - 1) as nat
        } else {
            (2 * self.idx) as nat
        }
    }

    /// The position stays within the tokens.
    pub closed spec fn wf(&self) -> bool {
        &&& self.idx <= self.parts@.len()
        &&& self.sep_due ==> self.idx > 0
        &&& !self.sep_due ==> (self.idx < self.parts@.len() || self.idx == 0)
    }

    /// A joiner over `parts` that has handed out nothing yet.
    pub fn new(parts: Vec<String>) -> (j: PathJoiner)
        ensures
            j.wf(),
            j.parts() == views(parts@),
            j.position() == 0,
    {
        PathJoiner { parts, idx: 0, sep_due: false }
    }

    /// The next token, or `None` once all have been handed out.
    pub fn next(&mut self) -> (t: Option<String>)
        requires
            old(self).wf(),
        ensures
            final(self).wf(),
            final(self).parts() == old(self).parts(),
            old(self).position() < token_count(old(self).parts().len()) ==> {
                &&& t is Some
                &&& t->0@ == token(old(self).parts(), old(self).position() as int)
                &&& final(self).position() == old(self).position() + 1
            },
            old(self).position() >= token_count(old(self).parts().len()) ==> {
                &&& t is None
                &&& final(self).position() == old(self).position()
            },
    {
        proof {
            reveal_strlit("/");
        }
        if self.idx < self.parts.len() {
            if self.sep_due {
                self.sep_due = false;
                Some(String::from_str("/"))
            } else {
                let part = self.parts[self.idx].clone();
                assert(self.parts@[self.idx as int]@ == views(self.parts@)[self.idx as int]);
                self.idx = self.idx + 1;
                self.sep_due = true;
                Some(part)
            }
        } else {
            None
        }
    }
}

impl<'a> From<&'a str> for SimplePath {
    /// Parses `s`, as `SimplePath::new` does.
    fn from(s: &'a str) -> (p: SimplePath)
        ensures
            p@ == parse_view(s@),
    {
        SimplePath::new(s)
    }
}

impl<'a> vstd::std_specs::convert::FromSpecImpl<&'a str> for SimplePath {
    open spec fn obeys_from_spec() -> bool {
        false
    }

    open spec fn from_spec(s: &'a str) -> SimplePath {
        arbitrary()
    }
}

} // verus!
