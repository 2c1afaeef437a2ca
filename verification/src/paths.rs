//! Byte-level path helpers for the documentation-concatenation utility
//! that accompanies the compiler: extension tests, best-effort path
//! normalization (no filesystem access), and the deterministic
//! case-insensitive ordering of collected files. Paths are modelled as
//! byte strings with `/` separators and ASCII case folding.
use vstd::prelude::*;

verus! {

use crate::ast::bytes_eq;
use crate::diag::names_view;
use crate::lexer::copy_range;

pub const B_SLASH: u8 = 47;

pub const B_DOT: u8 = 46;

/// ASCII lower-casing of one byte.
pub open spec fn to_lower(b: u8) -> u8 {
    if 65 <= b && b <= 90 {
        (b + 32) as u8
    } else {
        b
    }
}

/// ASCII lower-casing of a byte string.
pub open spec fn lower_seq(s: Seq<u8>) -> Seq<u8> {
    s.map_values(|b: u8| to_lower(b))
}

/// The suffix of `s` after its last `sep`, or all of `s` if none occurs.
pub open spec fn after_last(s: Seq<u8>, sep: u8) -> Seq<u8>
    decreases s.len(),
{
    if s.len() == 0 {
        s
    } else if s.last() == sep {
        Seq::empty()
    } else {
        after_last(s.drop_last(), sep).push(s.last())
    }
}

/// The index of the last `.` in `s`, or -1 if none occurs.
pub open spec fn last_dot(s: Seq<u8>) -> int
    decreases s.len(),
{
    if s.len() == 0 {
        -1
    } else if s.last() == B_DOT {
        s.len() - 1
    } else {
        last_dot(s.drop_last())
    }
}

/// The extension of a file name: what follows the last dot, provided that
/// dot is not the leading byte.
pub open spec fn ext_opt(name: Seq<u8>) -> Option<Seq<u8>> {
    let d = last_dot(name);
    if d >= 1 {
        Some(name.subrange(d + 1, name.len() as int))
    } else {
        None
    }
}

/// Whether a path names a markdown file: its file name's extension,
/// lower-cased, is `md` or `markdown`.
pub open spec fn is_markdown_spec(p: Seq<u8>) -> bool {
    match ext_opt(after_last(p, B_SLASH)) {
        Some(e) => lower_seq(e) == seq![109u8, 100u8] || lower_seq(e) == seq![
            109u8,
            97u8,
            114u8,
            107u8,
            100u8,
            111u8,
            119u8,
            110u8,
        ],
        None => false,
    }
}

fn to_lower_b(b: u8) -> (r: u8)
    ensures
        r == to_lower(b),
{
    if 65 <= b && b <= 90 {
        b + 32
    } else {
        b
    }
}

/// Whether `path` names a markdown file (`.md` or `.markdown`, any case).
pub fn is_markdown(path: &[u8]) -> (r: bool)
    ensures
        r == is_markdown_spec(path@),
{
    let mut k: usize = path.len();
    while k > 0 && path[k - 1] != B_SLASH
        invariant
            k <= path.len(),
            forall|q: int| k <= q < path.len() ==> path@[q] != B_SLASH,
        decreases k,
    {
        k = k - 1;
    }
    let name = copy_range(path, k, path.len());
    proof {
        lemma_after_last_skip(path@, B_SLASH, k as int);
        assert(name@ =~= after_last(path@, B_SLASH));
    }
    let mut d: usize = name.len();
    while d > 0 && name[d - 1] != B_DOT
        invariant
            d <= name.len(),
            forall|q: int| d <= q < name.len() ==> name@[q] != B_DOT,
        decreases d,
    {
        d = d - 1;
    }
    proof {
        lemma_last_dot_at(name@, d as int);
    }
    if d < 2 {
        return false;
    }
    let ext = copy_range(name.as_slice(), d, name.len());
    proof {
        assert(ext@ =~= name@.subrange(d as int, name@.len() as int));
    }
    let mut low: Vec<u8> = Vec::new();
    let mut x: usize = 0;
    while x < ext.len()
        invariant
            x <= ext.len(),
            low@ =~= lower_seq(ext@.subrange(0, x as int)),
        decreases ext.len() - x,
    {
        low.push(to_lower_b(ext[x]));
        x = x + 1;
        proof {
            assert(low@ =~= lower_seq(ext@.subrange(0, x as int)));
        }
    }
    proof {
        assert(ext@.subrange(0, ext@.len() as int) =~= ext@);
        assert(low@ == lower_seq(ext@));
    }
    let md = low.len() == 2 && low[0] == 109 && low[1] == 100;
    let mkd = low.len() == 8 && low[0] == 109 && low[1] == 97 && low[2] == 114 && low[3] == 107
        && low[4] == 100 && low[5] == 111 && low[6] == 119 && low[7] == 110;
    proof {
        if md {
            assert(low@ =~= seq![109u8, 100u8]);
        }
        if mkd {
            assert(low@ =~= seq![109u8, 97u8, 114u8, 107u8, 100u8, 111u8, 119u8, 110u8]);
        }
    }
    md || mkd
}

/// If no byte of `s.skip(k)` is `sep`, the suffix after the last `sep` of
/// `s` is `s.skip(k)` when `s[k-1] == sep` (or `k == 0`).
proof fn lemma_after_last_skip(s: Seq<u8>, sep: u8, k: int)
    requires
        0 <= k <= s.len(),
        forall|q: int| k <= q < s.len() ==> s[q] != sep,
        k == 0 || s[k - 1] == sep,
    ensures
        after_last(s, sep) == s.skip(k),
    decreases s.len() - k,
{
    if k == s.len() {
        if k == 0 {
            assert(after_last(s, sep) =~= s.skip(k));
        } else {
            assert(s.last() == sep);
            assert(after_last(s, sep) =~= s.skip(k));
        }
    } else {
        lemma_after_last_skip(s.drop_last(), sep, k);
        assert(s.drop_last().skip(k) =~= s.skip(k).drop_last());
        assert(after_last(s, sep) =~= s.skip(k));
    }
}

/// If no byte of `name.skip(d)` is a dot, the last dot of `name` is at
/// `d - 1` when `name[d-1] == '.'`, and absent when `d == 0`.
proof fn lemma_last_dot_at(name: Seq<u8>, d: int)
    requires
        0 <= d <= name.len(),
        forall|q: int| d <= q < name.len() ==> name[q] != B_DOT,
        d == 0 || name[d - 1] == B_DOT,
    ensures
        last_dot(name) == if d == 0 {
            -1int
        } else {
            d - 1
        },
    decreases name.len() - d,
{
    if d == name.len() {
        if d != 0 {
            assert(name.last() == B_DOT);
        }
    } else {
        lemma_last_dot_at(name.drop_last(), d);
        assert(name.drop_last().len() == name.len() - 1);
    }
}

/// Adds a finished component to the stack: empty and `.` vanish, `..`
/// pops, anything else is pushed.
pub open spec fn push_comp(comps: Seq<Seq<u8>>, c: Seq<u8>) -> Seq<Seq<u8>> {
    if c.len() == 0 || c == seq![B_DOT] {
        comps
    } else if c == seq![B_DOT, B_DOT] {
        if comps.len() > 0 {
            comps.drop_last()
        } else {
            comps
        }
    } else {
        comps.push(c)
    }
}

/// The component stack after reading `p` from position `i`, given the
/// stack so far and the partial component being read.
pub open spec fn norm_from(p: Seq<u8>, i: int, comps: Seq<Seq<u8>>, cur: Seq<u8>) -> Seq<Seq<u8>>
    decreases p.len() - i,
{
    if !(0 <= i < p.len()) {
        push_comp(comps, cur)
    } else if p[i] == B_SLASH {
        norm_from(p, i + 1, push_comp(comps, cur), Seq::empty())
    } else {
        norm_from(p, i + 1, comps, cur.push(p[i]))
    }
}

/// Joins components with `/`.
pub open spec fn join_rest(comps: Seq<Seq<u8>>) -> Seq<u8>
    decreases comps.len(),
{
    if comps.len() == 0 {
        Seq::empty()
    } else {
        seq![B_SLASH] + comps[0] + join_rest(comps.drop_first())
    }
}

/// Joins components with `/`, without a leading separator.
pub open spec fn join_comps(comps: Seq<Seq<u8>>) -> Seq<u8> {
    if comps.len() == 0 {
        Seq::empty()
    } else {
        comps[0] + join_rest(comps.drop_first())
    }
}

/// Best-effort normal form of a path: `.` components vanish, `..` pops,
/// repeated separators collapse; a leading `/` is kept.
pub open spec fn norm_spec(p: Seq<u8>) -> Seq<u8> {
    let comps = norm_from(p, 0, Seq::empty(), Seq::empty());
    if p.len() > 0 && p[0] == B_SLASH {
        seq![B_SLASH] + join_comps(comps)
    } else {
        join_comps(comps)
    }
}

/// Normalizes a path without touching the filesystem.
pub fn normalize(p: &[u8]) -> (r: Vec<u8>)
    ensures
        r@ == norm_spec(p@),
{
    let mut comps: Vec<Vec<u8>> = Vec::new();
    let mut cur: Vec<u8> = Vec::new();
    let mut i: usize = 0;
    proof {
        assert(names_view(comps@) =~= Seq::<Seq<u8>>::empty());
        assert(cur@ =~= Seq::<u8>::empty());
    }
    while i < p.len()
        invariant
            i <= p.len(),
            norm_from(p@, 0, Seq::empty(), Seq::empty()) == norm_from(
                p@,
                i as int,
                names_view(comps@),
                cur@,
            ),
        decreases p.len() - i,
    {
        let ghost c0 = names_view(comps@);
        let ghost cu0 = cur@;
        if p[i] == B_SLASH {
            push_comp_b(&mut comps, cur);
            cur = Vec::new();
            proof {
                assert(cur@ =~= Seq::<u8>::empty());
                assert(norm_from(p@, i as int, c0, cu0) == norm_from(
                    p@,
                    i + 1,
                    names_view(comps@),
                    cur@,
                ));
            }
        } else {
            cur.push(p[i]);
            proof {
                assert(cur@ =~= cu0.push(p@[i as int]));
                assert(norm_from(p@, i as int, c0, cu0) == norm_from(
                    p@,
                    i + 1,
                    names_view(comps@),
                    cur@,
                ));
            }
        }
        i = i + 1;
    }
    push_comp_b(&mut comps, cur);
    let mut out: Vec<u8> = Vec::new();
    if p.len() > 0 && p[0] == B_SLASH {
        out.push(B_SLASH);
    }
    let ghost head = out@;
    let ghost cv = names_view(comps@);
    let mut t: usize = 0;
    while t < comps.len()
        invariant
            t <= comps.len(),
            cv == names_view(comps@),
            out@ == head + (if t == 0 {
                Seq::<u8>::empty()
            } else {
                cv[0] + join_rest(cv.subrange(1, t as int))
            }),
        decreases comps.len() - t,
    {
        let ghost o0 = out@;
        if t > 0 {
            out.push(B_SLASH);
        }
        append_bytes(&mut out, &comps[t]);
        proof {
            if t == 0 {
                assert(cv.subrange(1, 1).len() == 0);
                assert(join_rest(cv.subrange(1, 1)) =~= Seq::<u8>::empty());
                assert(out@ =~= head + (cv[0] + join_rest(cv.subrange(1, 1))));
            } else {
                assert(cv.subrange(1, t + 1).drop_last() =~= cv.subrange(1, t as int));
                lemma_join_rest_snoc_shift(cv, 1, t as int);
                assert(out@ =~= head + (cv[0] + join_rest(cv.subrange(1, t + 1))));
            }
        }
        t = t + 1;
    }
    proof {
        if comps@.len() == 0 {
            assert(out@ =~= norm_spec(p@));
        } else {
            assert(cv.subrange(1, cv.len() as int) =~= cv.drop_first());
            assert(out@ =~= norm_spec(p@));
        }
    }
    out
}

/// Appending one more component extends the joined tail by a separator
/// and that component.
proof fn lemma_join_rest_snoc_shift(cv: Seq<Seq<u8>>, s: int, t: int)
    requires
        1 <= s <= t < cv.len(),
    ensures
        join_rest(cv.subrange(s, t + 1)) == join_rest(cv.subrange(s, t)) + seq![B_SLASH] + cv[t],
    decreases t - s,
{
    let a = cv.subrange(s, t + 1);
    let b = cv.subrange(s, t);
    if s == t {
        assert(b.len() == 0);
        assert(a.len() == 1);
        assert(a[0] == cv[t]);
        assert(a.drop_first() =~= Seq::<Seq<u8>>::empty());
        assert(join_rest(a.drop_first()) == Seq::<u8>::empty());
        assert(join_rest(a) == seq![B_SLASH] + a[0] + join_rest(a.drop_first()));
        assert(join_rest(a) =~= join_rest(b) + seq![B_SLASH] + cv[t]);
    } else {
        assert(a.drop_first() =~= cv.subrange(s + 1, t + 1));
        assert(b.drop_first() =~= cv.subrange(s + 1, t));
        lemma_join_rest_snoc_shift(cv, s + 1, t);
        assert(a[0] == cv[s]);
        assert(b[0] == cv[s]);
        assert(join_rest(a) == seq![B_SLASH] + cv[s] + join_rest(cv.subrange(s + 1, t + 1)));
        assert(join_rest(b) == seq![B_SLASH] + cv[s] + join_rest(cv.subrange(s + 1, t)));
        assert(join_rest(a) =~= join_rest(b) + seq![B_SLASH] + cv[t]);
    }
}

/// Adds a finished component to the stack.
fn push_comp_b(comps: &mut Vec<Vec<u8>>, c: Vec<u8>)
    ensures
        names_view(final(comps)@) == push_comp(names_view(old(comps)@), c@),
{
    let ghost c0 = names_view(comps@);
    let is_dot = c.len() == 1 && c[0] == B_DOT;
    let is_dotdot = c.len() == 2 && c[0] == B_DOT && c[1] == B_DOT;
    proof {
        if is_dot {
            assert(c@ =~= seq![B_DOT]);
        } else if c@ == seq![B_DOT] {
            assert(c@.len() == 1 && c@[0] == B_DOT);
        }
        if is_dotdot {
            assert(c@ =~= seq![B_DOT, B_DOT]);
        } else if c@ == seq![B_DOT, B_DOT] {
            assert(c@.len() == 2 && c@[0] == B_DOT && c@[1] == B_DOT);
        }
    }
    if c.len() == 0 || is_dot {
    } else if is_dotdot {
        if comps.len() > 0 {
            comps.pop();
            proof {
                assert(names_view(comps@) =~= c0.drop_last());
            }
        }
    } else {
        comps.push(c);
        proof {
            assert(names_view(comps@) =~= c0.push(c@));
        }
    }
}

/// Appends `b` to `out`.
fn append_bytes(out: &mut Vec<u8>, b: &Vec<u8>)
    ensures
        final(out)@ == old(out)@ + b@,
{
    let mut t: usize = 0;
    while t < b.len()
        invariant
            t <= b.len(),
            out@ == old(out)@ + b@.subrange(0, t as int),
        decreases b.len() - t,
    {
        out.push(b[t]);
        t = t + 1;
        proof {
            assert(out@ =~= old(out)@ + b@.subrange(0, t as int));
        }
    }
    proof {
        assert(out@ =~= old(out)@ + b@);
    }
}

/// Whether two paths have the same normal form.
pub fn paths_equal(a: &[u8], b: &[u8]) -> (r: bool)
    ensures
        r == (norm_spec(a@) == norm_spec(b@)),
{
    let na = normalize(a);
    let nb = normalize(b);
    bytes_eq(&na, &nb)
}

/// Lexicographic byte order.
pub open spec fn lex_le(x: Seq<u8>, y: Seq<u8>) -> bool
    decreases x.len(),
{
    if x.len() == 0 {
        true
    } else if y.len() == 0 {
        false
    } else if x[0] < y[0] {
        true
    } else if x[0] > y[0] {
        false
    } else {
        lex_le(x.drop_first(), y.drop_first())
    }
}

/// The utility's sort order: lexicographic on the ASCII-lower-cased path.
pub open spec fn key_le(a: Seq<u8>, b: Seq<u8>) -> bool {
    lex_le(lower_seq(a), lower_seq(b))
}

/// `lex_le` is total.
proof fn lemma_lex_total(x: Seq<u8>, y: Seq<u8>)
    ensures
        lex_le(x, y) || lex_le(y, x),
    decreases x.len(),
{
    if x.len() > 0 && y.len() > 0 && x[0] == y[0] {
        lemma_lex_total(x.drop_first(), y.drop_first());
    }
}

/// `lex_le` is transitive.
proof fn lemma_lex_trans(x: Seq<u8>, y: Seq<u8>, z: Seq<u8>)
    requires
        lex_le(x, y),
        lex_le(y, z),
    ensures
        lex_le(x, z),
    decreases x.len(),
{
    if x.len() > 0 && y.len() > 0 && z.len() > 0 && x[0] == y[0] && y[0] == z[0] {
        lemma_lex_trans(x.drop_first(), y.drop_first(), z.drop_first());
    }
}

fn key_le_b(a: &Vec<u8>, b: &Vec<u8>) -> (r: bool)
    ensures
        r == key_le(a@, b@),
{
    let ghost la = lower_seq(a@);
    let ghost lb = lower_seq(b@);
    let mut i: usize = 0;
    proof {
        assert(la.skip(0) =~= la);
        assert(lb.skip(0) =~= lb);
    }
    while i < a.len() && i < b.len()
        invariant
            i <= a.len(),
            i <= b.len(),
            la == lower_seq(a@),
            lb == lower_seq(b@),
            lex_le(la, lb) == lex_le(la.skip(i as int), lb.skip(i as int)),
        decreases a.len() - i,
    {
        let ca = to_lower_b(a[i]);
        let cb = to_lower_b(b[i]);
        proof {
            assert(la.skip(i as int)[0] == la[i as int]);
            assert(lb.skip(i as int)[0] == lb[i as int]);
            assert(la.skip(i as int).drop_first() =~= la.skip(i + 1));
            assert(lb.skip(i as int).drop_first() =~= lb.skip(i + 1));
        }
        if ca < cb {
            return true;
        }
        if ca > cb {
            return false;
        }
        i = i + 1;
    }
    proof {
        if i >= a.len() {
            assert(la.skip(i as int).len() == 0);
        } else {
            assert(lb.skip(i as int).len() == 0);
            assert(la.skip(i as int).len() > 0);
        }
    }
    a.len() <= b.len()
}

/// The list is ordered by `key_le`.
pub open spec fn sorted_by_key(s: Seq<Seq<u8>>) -> bool {
    forall|i: int, j: int| 0 <= i < j < s.len() ==> key_le(#[trigger] s[i], #[trigger] s[j])
}

/// Sorts paths by case-insensitive lexicographic order (insertion sort;
/// stable enough for a deterministic listing). The result holds exactly
/// the input paths.
pub fn sort_paths(v: &Vec<Vec<u8>>) -> (r: Vec<Vec<u8>>)
    ensures
        sorted_by_key(names_view(r@)),
        names_view(r@).to_multiset() == names_view(v@).to_multiset(),
{
    let mut out: Vec<Vec<u8>> = Vec::new();
    let mut t: usize = 0;
    proof {
        assert(names_view(out@) =~= Seq::<Seq<u8>>::empty());
        assert(names_view(v@.subrange(0, 0)) =~= Seq::<Seq<u8>>::empty());
        assert(names_view(out@).to_multiset() =~= names_view(v@.subrange(0, 0)).to_multiset());
    }
    while t < v.len()
        invariant
            t <= v.len(),
            sorted_by_key(names_view(out@)),
            names_view(out@).to_multiset() == names_view(v@.subrange(0, t as int)).to_multiset(),
        decreases v.len() - t,
    {
        let x = crate::ast::dup_bytes(&v[t]);
        let ghost xv = x@;
        let ghost o0 = names_view(out@);
        let mut p: usize = 0;
        while p < out.len() && key_le_b(&out[p], &x)
            invariant
                p <= out.len(),
                o0 == names_view(out@),
                xv == x@,
                forall|q: int| 0 <= q < p ==> key_le(#[trigger] o0[q], xv),
            decreases out.len() - p,
        {
            p = p + 1;
        }
        proof {
            if p < out@.len() {
                assert(!key_le(o0[p as int], xv));
                lemma_lex_total(lower_seq(o0[p as int]), lower_seq(xv));
            }
        }
        out.insert(p, x);
        proof {
            assert(names_view(out@) =~= o0.insert(p as int, xv));
            vstd::seq_lib::to_multiset_insert(o0, p as int, xv);
            assert(names_view(v@.subrange(0, t + 1)).drop_last() =~= names_view(
                v@.subrange(0, t as int),
            ));
            assert(names_view(v@.subrange(0, t + 1)).last() == xv);
            vstd::seq_lib::to_multiset_build(
                names_view(v@.subrange(0, t as int)),
                xv,
            );
            assert(names_view(v@.subrange(0, t + 1)) =~= names_view(
                v@.subrange(0, t as int),
            ).push(xv));
            assert forall|i: int, j: int|
                0 <= i < j < names_view(out@).len() implies key_le(
                #[trigger] names_view(out@)[i],
                #[trigger] names_view(out@)[j],
            ) by {
                let nv = names_view(out@);
                let pp = p as int;
                if j < pp {
                    assert(nv[i] == o0[i] && nv[j] == o0[j]);
                } else if i > pp {
                    assert(nv[i] == o0[i - 1] && nv[j] == o0[j - 1]);
                } else if i == pp && j > pp {
                    assert(nv[i] == xv && nv[j] == o0[j - 1]);
                    assert(!key_le(o0[pp], xv));
                    assert(key_le(xv, o0[pp]));
                    if j - 1 != pp {
                        assert(key_le(o0[pp], o0[j - 1]));
                        lemma_lex_trans(
                            lower_seq(xv),
                            lower_seq(o0[pp]),
                            lower_seq(o0[j - 1]),
                        );
                    }
                } else if j == pp {
                    assert(nv[i] == o0[i] && nv[j] == xv);
                } else if i < pp && j > pp {
                    assert(nv[i] == o0[i] && nv[j] == o0[j - 1]);
                }
            }
        }
        t = t + 1;
    }
    proof {
        assert(v@.subrange(0, v@.len() as int) =~= v@);
    }
    out
}

/// How the utility's command line chooses the output path.
#[derive(Clone, Debug, PartialEq, Eq)]
pub enum OutChoice {
    DefaultPath,
    Chosen(Vec<u8>),
    MissingOutPath,
}

/// Mathematical model of `OutChoice`.
pub enum OutChoiceV {
    DefaultPath,
    Chosen(Seq<u8>),
    MissingOutPath,
}

impl View for OutChoice {
    type V = OutChoiceV;

    open spec fn view(&self) -> OutChoiceV {
        match self {
            OutChoice::DefaultPath => OutChoiceV::DefaultPath,
            OutChoice::Chosen(p) => OutChoiceV::Chosen(p@),
            OutChoice::MissingOutPath => OutChoiceV::MissingOutPath,
        }
    }
}

/// `--out` as bytes.
pub open spec fn out_flag_long() -> Seq<u8> {
    seq![45u8, 45u8, 111u8, 117u8, 116u8]
}

/// `-o` as bytes.
pub open spec fn out_flag_short() -> Seq<u8> {
    seq![45u8, 111u8]
}

/// How the output path is chosen from the arguments: none means the
/// default; `--out`/`-o` takes the next argument and is an error without
/// one; anything else is itself the path.
pub open spec fn resolve_out_spec(args: Seq<Seq<u8>>) -> OutChoiceV {
    if args.len() == 0 {
        OutChoiceV::DefaultPath
    } else if args[0] == out_flag_long() || args[0] == out_flag_short() {
        if args.len() >= 2 {
            OutChoiceV::Chosen(args[1])
        } else {
            OutChoiceV::MissingOutPath
        }
    } else {
        OutChoiceV::Chosen(args[0])
    }
}

/// Resolves the output path from the command-line arguments.
pub fn resolve_out_arg(args: &Vec<Vec<u8>>) -> (r: OutChoice)
    ensures
        r@ == resolve_out_spec(names_view(args@)),
{
    if args.len() == 0 {
        return OutChoice::DefaultPath;
    }
    let a0 = &args[0];
    let long = a0.len() == 5 && a0[0] == 45 && a0[1] == 45 && a0[2] == 111 && a0[3] == 117
        && a0[4] == 116;
    let short = a0.len() == 2 && a0[0] == 45 && a0[1] == 111;
    proof {
        if long {
            assert(a0@ =~= out_flag_long());
        }
        if short {
            assert(a0@ =~= out_flag_short());
        }
        assert(names_view(args@)[0] == a0@);
    }
    if long || short {
        if args.len() >= 2 {
            proof {
                assert(names_view(args@)[1] == args@[1]@);
            }
            OutChoice::Chosen(crate::ast::dup_bytes(&args[1]))
        } else {
            OutChoice::MissingOutPath
        }
    } else {
        OutChoice::Chosen(crate::ast::dup_bytes(a0))
    }
}

} // verus!
