//! A specification-level decoder for the blob format, and the round-trip
//! law: decoding an encoded blob recovers exactly the string pool and the
//! trees of the document that produced it. The decoder pins down the
//! meaning of the wire format — it is the inverse mapping any runtime
//! loader must implement; nothing executable here is needed by the
//! compiler itself.
use vstd::prelude::*;

verus! {

use crate::ast::{Tree, tree_of, doc_trees, DocV};
use crate::encode::{le16, le32, le64, rec9, tree_recs, trees_recs, tree_cnt, trees_cnt, tree_str,
    tree_strs, trees_strs, pool_entries, pool_section, table_section, pool_of, idx_of, dedup,
    fnv64, blob_bytes, LIMIT32};

/// Two little-endian bytes read back.
pub open spec fn rd16(s: Seq<u8>, off: int) -> int {
    s[off] + 0x100 * s[off + 1]
}

/// Four little-endian bytes read back.
pub open spec fn rd32(s: Seq<u8>, off: int) -> int {
    s[off] + 0x100 * s[off + 1] + 0x10000 * s[off + 2] + 0x1000000 * s[off + 3]
}

/// Eight little-endian bytes read back.
pub open spec fn rd64(s: Seq<u8>, off: int) -> int {
    rd32(s, off) + 0x1_0000_0000 * rd32(s, off + 4)
}

/// The pool entries starting at `off`: `k` length-prefixed strings.
pub open spec fn parse_pool(s: Seq<u8>, off: int, k: nat) -> Option<(Seq<Seq<u8>>, int)>
    decreases k,
{
    if k == 0 {
        Some((Seq::empty(), off))
    } else if 0 <= off && off + 4 <= s.len() {
        let l = rd32(s, off);
        if off + 4 + l <= s.len() {
            let one = s.subrange(off + 4, off + 4 + l);
            match parse_pool(s, off + 4 + l, (k - 1) as nat) {
                Some((rest, end)) => Some((seq![one] + rest, end)),
                None => None,
            }
        } else {
            None
        }
    } else {
        None
    }
}

/// The leaf tree of a tag.
pub open spec fn mk_leaf(tag: u8, st: Seq<u8>) -> Tree {
    if tag == 0 {
        Tree::Text(st)
    } else if tag == 1 {
        Tree::Interpolation(st)
    } else if tag == 4 {
        Tree::Include(st)
    } else {
        Tree::Call(st)
    }
}

/// The block tree of a tag.
pub open spec fn mk_block(tag: u8, st: Seq<u8>, ch: Seq<Tree>) -> Tree {
    if tag == 2 {
        Tree::If(st, ch)
    } else if tag == 3 {
        Tree::For(st, ch)
    } else {
        Tree::Define(st, ch)
    }
}

/// One tree rebuilt from the record at byte `off`, whose subtree must fit
/// within `limit`; returns the tree and the offset after its records.
pub open spec fn build_tree(s: Seq<u8>, pool: Seq<Seq<u8>>, off: int, limit: int) -> Option<
    (Tree, int),
>
    decreases limit - off, 0int,
{
    if 0 <= off && off + 9 <= limit && limit <= s.len() {
        let tag = s[off];
        let sym = rd32(s, off + 1);
        let cnt = rd32(s, off + 5);
        if 0 <= sym < pool.len() {
            let st = pool[sym];
            if tag == 0 || tag == 1 || tag == 4 || tag == 5 {
                if cnt == 1 {
                    Some((mk_leaf(tag, st), off + 9))
                } else {
                    None
                }
            } else if tag == 2 || tag == 3 || tag == 6 {
                if cnt >= 1 && off + 9 * cnt <= limit {
                    match build_list(s, pool, off + 9, off + 9 * cnt) {
                        Some(ch) => Some((mk_block(tag, st, ch), off + 9 * cnt)),
                        None => None,
                    }
                } else {
                    None
                }
            } else {
                None
            }
        } else {
            None
        }
    } else {
        None
    }
}

/// The trees rebuilt from the records that exactly fill `off .. limit`.
pub open spec fn build_list(s: Seq<u8>, pool: Seq<Seq<u8>>, off: int, limit: int) -> Option<
    Seq<Tree>,
>
    decreases limit - off, 1int,
{
    if off == limit {
        Some(Seq::empty())
    } else if off < limit {
        match build_tree(s, pool, off, limit) {
            Some((t, noff)) => {
                if off < noff <= limit {
                    match build_list(s, pool, noff, limit) {
                        Some(r) => Some(seq![t] + r),
                        None => None,
                    }
                } else {
                    None
                }
            },
            None => None,
        }
    } else {
        None
    }
}

/// Decodes a whole blob: header checks (magic, version, flags, offsets,
/// checksum), then the string pool, then the node table, which must fill
/// the blob exactly.
pub open spec fn decode_spec(b: Seq<u8>) -> Option<(Seq<Seq<u8>>, Seq<Tree>)> {
    if b.len() >= 24 && b[0] == 70 && b[1] == 73 && b[2] == 82 && b[3] == 49 && rd16(b, 4) == 1
        && rd16(b, 6) == 0 && rd32(b, 8) == 24 && rd64(b, 16) == fnv64(
        b.subrange(24, b.len() as int),
    ) {
        let toff = rd32(b, 12);
        if 28 <= toff && toff + 4 <= b.len() {
            let pc = rd32(b, 24);
            match parse_pool(b, 28, pc as nat) {
                Some((pool, pend)) => {
                    if pend == toff {
                        let rc = rd32(b, toff);
                        if toff + 4 + 9 * rc == b.len() {
                            match build_list(b, pool, toff + 4, b.len() as int) {
                                Some(ts) => Some((pool, ts)),
                                None => None,
                            }
                        } else {
                            None
                        }
                    } else {
                        None
                    }
                },
                None => None,
            }
        } else {
            None
        }
    } else {
        None
    }
}

proof fn lemma_u32_decompose(x: u32)
    ensures
        x % 0x100 + 0x100 * (x / 0x100 % 0x100) + 0x10000 * (x / 0x10000 % 0x100) + 0x1000000 * (x
            / 0x1000000 % 0x100) == x,
{
    assert(x % 0x100 + 0x100 * (x / 0x100 % 0x100) + 0x10000 * (x / 0x10000 % 0x100) + 0x1000000
        * (x / 0x1000000 % 0x100) == x) by (bit_vector);
}

proof fn lemma_u16_decompose(x: u16)
    ensures
        x % 0x100 + 0x100 * (x / 0x100) == x,
{
    assert(x % 0x100 + 0x100 * (x / 0x100) == x) by (bit_vector);
}

/// Reading back four little-endian bytes recovers the value.
proof fn lemma_rd32(s: Seq<u8>, off: int, x: nat)
    requires
        0 <= off,
        off + 4 <= s.len(),
        x <= 0xffff_ffff,
        s.subrange(off, off + 4) == le32(x),
    ensures
        rd32(s, off) == x,
{
    assert(s[off] == le32(x)[0]);
    assert(s[off + 1] == le32(x)[1]);
    assert(s[off + 2] == le32(x)[2]);
    assert(s[off + 3] == le32(x)[3]);
    let x32 = x as u32;
    lemma_u32_decompose(x32);
}

/// Reading back two little-endian bytes recovers the value.
proof fn lemma_rd16(s: Seq<u8>, off: int, x: nat)
    requires
        0 <= off,
        off + 2 <= s.len(),
        x <= 0xffff,
        s.subrange(off, off + 2) == le16(x),
    ensures
        rd16(s, off) == x,
{
    assert(s[off] == le16(x)[0]);
    assert(s[off + 1] == le16(x)[1]);
    let x16 = x as u16;
    lemma_u16_decompose(x16);
}

/// Reading back eight little-endian bytes recovers the value.
#[verifier::rlimit(100)]
proof fn lemma_rd64(s: Seq<u8>, off: int, x: nat)
    requires
        0 <= off,
        off + 8 <= s.len(),
        x <= 0xffff_ffff_ffff_ffff,
        s.subrange(off, off + 8) == le64(x),
    ensures
        rd64(s, off) == x,
{
    let lo = x % 0x1_0000_0000;
    let hi = x / 0x1_0000_0000;
    assert(le64(x) == le32(lo) + le32(hi));
    assert forall|i: int| 0 <= i < 4 implies s.subrange(off, off + 4)[i] == le32(lo)[i] by {
        assert(s.subrange(off, off + 8)[i] == le64(x)[i]);
        assert(le64(x)[i] == le32(lo)[i]);
    }
    assert(s.subrange(off, off + 4) =~= le32(lo));
    assert forall|i: int| 0 <= i < 4 implies s.subrange(off + 4, off + 8)[i] == le32(hi)[i] by {
        assert(s.subrange(off, off + 8)[i + 4] == le64(x)[i + 4]);
        assert(le64(x)[i + 4] == le32(hi)[i]);
    }
    assert(s.subrange(off + 4, off + 8) =~= le32(hi));
    lemma_rd32(s, off, lo);
    lemma_rd32(s, off + 4, hi);
    assert(x == lo + 0x1_0000_0000 * hi);
}

/// Parsing the pool entries recovers the pool.
proof fn lemma_parse_pool(s: Seq<u8>, off: int, pool: Seq<Seq<u8>>)
    requires
        0 <= off,
        off + pool_entries(pool).len() <= s.len(),
        s.subrange(off, off + pool_entries(pool).len() as int) == pool_entries(pool),
        forall|j: int| 0 <= j < pool.len() ==> (#[trigger] pool[j]).len() <= LIMIT32,
    ensures
        parse_pool(s, off, pool.len() as nat) == Some(
            (pool, off + pool_entries(pool).len() as int),
        ),
    decreases pool.len(),
{
    if pool.len() == 0 {
        assert(pool =~= Seq::<Seq<u8>>::empty());
    } else {
        let e = pool_entries(pool);
        let l0 = pool[0].len() as int;
        let rest = pool_entries(pool.drop_first());
        assert(e == le32(pool[0].len()) + pool[0] + rest);
        assert(e.len() == 4 + l0 + rest.len());
        let el = e.len() as int;
        assert forall|i: int| 0 <= i < 4 implies s.subrange(off, off + 4)[i] == le32(
            pool[0].len(),
        )[i] by {
            assert(s.subrange(off, off + el)[i] == e[i]);
            assert(e[i] == le32(pool[0].len())[i]);
        }
        assert(s.subrange(off, off + 4) =~= le32(pool[0].len()));
        lemma_rd32(s, off, pool[0].len());
        assert forall|i: int| 0 <= i < l0 implies s.subrange(off + 4, off + 4 + l0)[i]
            == pool[0][i] by {
            assert(s.subrange(off, off + el)[4 + i] == e[4 + i]);
            assert(e[4 + i] == pool[0][i]);
        }
        assert(s.subrange(off + 4, off + 4 + l0) =~= pool[0]);
        assert forall|i: int| 0 <= i < rest.len() implies s.subrange(
            off + 4 + l0,
            off + 4 + l0 + rest.len() as int,
        )[i] == rest[i] by {
            assert(s.subrange(off, off + el)[4 + l0 + i] == e[4 + l0 + i]);
            assert(e[4 + l0 + i] == rest[i]);
        }
        assert(s.subrange(off + 4 + l0, off + 4 + l0 + rest.len() as int) =~= rest);
        lemma_parse_pool(s, off + 4 + l0, pool.drop_first());
        assert(seq![pool[0]] + pool.drop_first() =~= pool);
    }
}

/// Every subtree's record count fits 32 bits.
pub open spec fn cnts_ok(t: Tree) -> bool
    decreases t,
{
    tree_cnt(t) <= LIMIT32 && match t {
        Tree::If(_, ch) => list_cnts_ok(ch),
        Tree::For(_, ch) => list_cnts_ok(ch),
        Tree::Define(_, ch) => list_cnts_ok(ch),
        _ => true,
    }
}

/// `cnts_ok` for every tree of a forest.
pub open spec fn list_cnts_ok(ts: Seq<Tree>) -> bool
    decreases ts,
{
    ts.len() == 0 || (cnts_ok(ts[0]) && list_cnts_ok(ts.drop_first()))
}

/// Every string of the tree is pooled.
pub open spec fn strs_in(t: Tree, pool: Seq<Seq<u8>>) -> bool
    decreases t,
{
    pool.contains(tree_str(t)) && match t {
        Tree::If(_, ch) => list_strs_in(ch, pool),
        Tree::For(_, ch) => list_strs_in(ch, pool),
        Tree::Define(_, ch) => list_strs_in(ch, pool),
        _ => true,
    }
}

/// `strs_in` for every tree of a forest.
pub open spec fn list_strs_in(ts: Seq<Tree>, pool: Seq<Seq<u8>>) -> bool
    decreases ts,
{
    ts.len() == 0 || (strs_in(ts[0], pool) && list_strs_in(ts.drop_first(), pool))
}

proof fn lemma_recs_len(t: Tree, pool: Seq<Seq<u8>>)
    ensures
        tree_recs(t, pool).len() == 9 * tree_cnt(t),
    decreases t,
{
    match t {
        Tree::If(_, ch) => lemma_list_recs_len(ch, pool),
        Tree::For(_, ch) => lemma_list_recs_len(ch, pool),
        Tree::Define(_, ch) => lemma_list_recs_len(ch, pool),
        _ => {},
    }
}

proof fn lemma_list_recs_len(ts: Seq<Tree>, pool: Seq<Seq<u8>>)
    ensures
        trees_recs(ts, pool).len() == 9 * trees_cnt(ts),
    decreases ts,
{
    if ts.len() > 0 {
        lemma_recs_len(ts[0], pool);
        lemma_list_recs_len(ts.drop_first(), pool);
    }
}

proof fn lemma_idx_from(pool: Seq<Seq<u8>>, s: Seq<u8>, j: int)
    requires
        0 <= j,
        exists|q: int| j <= q < pool.len() && pool[q] == s,
    ensures
        j <= idx_of(pool, s, j) < pool.len(),
        pool[idx_of(pool, s, j)] == s,
    decreases pool.len() - j,
{
    if !(0 <= j < pool.len()) {
        assert(false);
    } else if pool[j] == s {
    } else {
        let q = choose|q: int| j <= q < pool.len() && pool[q] == s;
        assert(q != j);
        assert(j + 1 <= q < pool.len() && pool[q] == s);
        lemma_idx_from(pool, s, j + 1);
    }
}

/// A pooled string is found at its index.
proof fn lemma_idx_of(pool: Seq<Seq<u8>>, s: Seq<u8>)
    requires
        pool.contains(s),
    ensures
        0 <= idx_of(pool, s, 0) < pool.len(),
        pool[idx_of(pool, s, 0)] == s,
{
    let q = choose|q: int| 0 <= q < pool.len() && pool[q] == s;
    assert(0 <= q < pool.len() && pool[q] == s);
    lemma_idx_from(pool, s, 0);
}

/// A window of a window of `s` is the matching window of the content.
proof fn lemma_sub_sub(s: Seq<u8>, off: int, a: int, b: int, whole: Seq<u8>)
    requires
        0 <= off,
        off + whole.len() <= s.len(),
        s.subrange(off, off + whole.len() as int) == whole,
        0 <= a <= b <= whole.len(),
    ensures
        s.subrange(off + a, off + b) == whole.subrange(a, b),
{
    assert forall|i: int| 0 <= i < b - a implies s.subrange(off + a, off + b)[i] == whole.subrange(
        a,
        b,
    )[i] by {
        assert(s.subrange(off, off + whole.len() as int)[a + i] == whole[a + i]);
    }
    assert(s.subrange(off + a, off + b) =~= whole.subrange(a, b));
}

/// Rebuilding the records of one tree yields that tree.
#[verifier::rlimit(100)]
proof fn lemma_build_tree_rt(s: Seq<u8>, pool: Seq<Seq<u8>>, t: Tree, off: int, limit: int)
    requires
        0 <= off,
        off + 9 * tree_cnt(t) <= limit,
        limit <= s.len(),
        s.subrange(off, off + 9 * tree_cnt(t)) == tree_recs(t, pool),
        cnts_ok(t),
        strs_in(t, pool),
        pool.len() <= LIMIT32,
    ensures
        build_tree(s, pool, off, limit) == Some((t, off + 9 * tree_cnt(t))),
    decreases t,
{
    lemma_recs_len(t, pool);
    lemma_idx_of(pool, tree_str(t));
    let sym = idx_of(pool, tree_str(t), 0);
    let cnt = tree_cnt(t) as int;
    let w = tree_recs(t, pool);
    let tag = crate::encode::tree_tag(t);
    assert(w.subrange(0, 9) =~= rec9(tag, sym as nat, cnt as nat)) by {
        match t {
            Tree::If(c, ch) => {
                lemma_list_recs_len(ch, pool);
            },
            Tree::For(v, ch) => {
                lemma_list_recs_len(ch, pool);
            },
            Tree::Define(n, ch) => {
                lemma_list_recs_len(ch, pool);
            },
            _ => {},
        }
    }
    lemma_sub_sub(s, off, 0, 9, w);
    assert(s[off] == w[0]);
    assert(w[0] == tag);
    assert(s.subrange(off + 1, off + 5) =~= le32(sym as nat)) by {
        lemma_sub_sub(s, off, 1, 5, w);
        assert(w.subrange(1, 5) =~= le32(sym as nat)) by {
            assert forall|i: int| 0 <= i < 4 implies w.subrange(1, 5)[i] == le32(sym as nat)[i] by {
                assert(w.subrange(0, 9)[1 + i] == rec9(tag, sym as nat, cnt as nat)[1 + i]);
            }
        }
    }
    lemma_rd32(s, off + 1, sym as nat);
    assert(s.subrange(off + 5, off + 9) =~= le32(cnt as nat)) by {
        lemma_sub_sub(s, off, 5, 9, w);
        assert(w.subrange(5, 9) =~= le32(cnt as nat)) by {
            assert forall|i: int| 0 <= i < 4 implies w.subrange(5, 9)[i] == le32(cnt as nat)[i] by {
                assert(w.subrange(0, 9)[5 + i] == rec9(tag, sym as nat, cnt as nat)[5 + i]);
            }
        }
    }
    lemma_rd32(s, off + 5, cnt as nat);
    match t {
        Tree::Text(_) => {},
        Tree::Interpolation(_) => {},
        Tree::Include(_) => {},
        Tree::Call(_) => {},
        Tree::If(c, ch) => {
            lemma_list_recs_len(ch, pool);
            lemma_sub_sub(s, off, 9, 9 * cnt, w);
            assert(w.subrange(9, 9 * cnt) =~= trees_recs(ch, pool));
            lemma_build_list_rt(s, pool, ch, off + 9, off + 9 * cnt);
        },
        Tree::For(v, ch) => {
            lemma_list_recs_len(ch, pool);
            lemma_sub_sub(s, off, 9, 9 * cnt, w);
            assert(w.subrange(9, 9 * cnt) =~= trees_recs(ch, pool));
            lemma_build_list_rt(s, pool, ch, off + 9, off + 9 * cnt);
        },
        Tree::Define(n, ch) => {
            lemma_list_recs_len(ch, pool);
            lemma_sub_sub(s, off, 9, 9 * cnt, w);
            assert(w.subrange(9, 9 * cnt) =~= trees_recs(ch, pool));
            lemma_build_list_rt(s, pool, ch, off + 9, off + 9 * cnt);
        },
    }
}

/// Rebuilding the records of a forest yields that forest.
#[verifier::rlimit(100)]
proof fn lemma_build_list_rt(s: Seq<u8>, pool: Seq<Seq<u8>>, ts: Seq<Tree>, off: int, limit: int)
    requires
        0 <= off,
        limit == off + 9 * trees_cnt(ts),
        limit <= s.len(),
        s.subrange(off, limit) == trees_recs(ts, pool),
        list_cnts_ok(ts),
        list_strs_in(ts, pool),
        pool.len() <= LIMIT32,
    ensures
        build_list(s, pool, off, limit) == Some(ts),
    decreases ts,
{
    lemma_list_recs_len(ts, pool);
    if ts.len() == 0 {
        assert(ts =~= Seq::<Tree>::empty());
    } else {
        let h = ts[0];
        let rest = ts.drop_first();
        lemma_recs_len(h, pool);
        lemma_list_recs_len(rest, pool);
        let w = trees_recs(ts, pool);
        assert(w == tree_recs(h, pool) + trees_recs(rest, pool));
        let hl = 9 * tree_cnt(h) as int;
        assert(s.subrange(off, off + hl) =~= tree_recs(h, pool)) by {
            lemma_sub_sub(s, off, 0, hl, w);
            assert(w.subrange(0, hl) =~= tree_recs(h, pool));
        }
        lemma_build_tree_rt(s, pool, h, off, limit);
        let noff = off + hl;
        assert(s.subrange(noff, limit) =~= trees_recs(rest, pool)) by {
            lemma_sub_sub(s, off, hl, w.len() as int, w);
            assert(w.subrange(hl, w.len() as int) =~= trees_recs(rest, pool));
        }
        lemma_build_list_rt(s, pool, rest, noff, limit);
        assert(seq![h] + rest =~= ts);
    }
}

/// Count bounds transfer from arena subtrees to their tree views.
proof fn lemma_cnts_ok_tree(av: Seq<crate::ast::NodeV>, i: int)
    requires
        forall|q: int| 0 <= q < av.len() ==> tree_cnt(tree_of(av, q)) <= LIMIT32,
    ensures
        cnts_ok(tree_of(av, i)),
    decreases i, crate::ast::node_children(av[i]).len() + 1,
{
    if 0 <= i < av.len() {
        match av[i] {
            crate::ast::NodeV::If { children, .. } => {
                lemma_cnts_ok_list(av, children, i);
            },
            crate::ast::NodeV::For { children, .. } => {
                lemma_cnts_ok_list(av, children, i);
            },
            crate::ast::NodeV::Define { children, .. } => {
                lemma_cnts_ok_list(av, children, i);
            },
            _ => {},
        }
    }
}

proof fn lemma_cnts_ok_list(av: Seq<crate::ast::NodeV>, ch: Seq<usize>, bound: int)
    requires
        forall|q: int| 0 <= q < av.len() ==> tree_cnt(tree_of(av, q)) <= LIMIT32,
    ensures
        list_cnts_ok(crate::ast::trees_of(av, ch, bound)),
    decreases bound, ch.len(),
{
    if ch.len() == 0 {
    } else if (ch[0] as int) < bound {
        lemma_cnts_ok_tree(av, ch[0] as int);
        lemma_cnts_ok_list(av, ch.drop_first(), bound);
        let ts = crate::ast::trees_of(av, ch, bound);
        assert(ts == seq![tree_of(av, ch[0] as int)] + crate::ast::trees_of(
            av,
            ch.drop_first(),
            bound,
        ));
        assert(ts[0] == tree_of(av, ch[0] as int));
        assert(ts.drop_first() =~= crate::ast::trees_of(av, ch.drop_first(), bound));
    } else {
        lemma_cnts_ok_list(av, ch.drop_first(), bound);
    }
}

proof fn lemma_dedup_keeps(acc: Seq<Seq<u8>>, l: Seq<Seq<u8>>, x: Seq<u8>)
    requires
        acc.contains(x) || l.contains(x),
    ensures
        dedup(acc, l).contains(x),
    decreases l.len(),
{
    if l.len() == 0 {
    } else {
        let acc2 = if acc.contains(l[0]) {
            acc
        } else {
            acc.push(l[0])
        };
        if acc.contains(x) {
            if !acc.contains(l[0]) {
                let i = choose|i: int| 0 <= i < acc.len() && acc[i] == x;
                assert(acc.push(l[0])[i] == x);
                assert(acc2.contains(x));
            }
            lemma_dedup_keeps(acc2, l.drop_first(), x);
        } else if x == l[0] {
            if !acc.contains(l[0]) {
                assert(acc.push(l[0])[acc.len() as int] == x);
            }
            assert(acc2.contains(x));
            lemma_dedup_keeps(acc2, l.drop_first(), x);
        } else {
            let q = choose|q: int| 0 <= q < l.len() && l[q] == x;
            assert(q != 0);
            assert(l.drop_first()[q - 1] == x);
            assert(l.drop_first().contains(x));
            lemma_dedup_keeps(acc2, l.drop_first(), x);
        }
    }
}

proof fn lemma_strs_in_tree(t: Tree, pool: Seq<Seq<u8>>)
    requires
        forall|q: int|
            0 <= q < tree_strs(t).len() ==> pool.contains(#[trigger] tree_strs(t)[q]),
    ensures
        strs_in(t, pool),
    decreases t,
{
    assert(tree_strs(t)[0] == tree_str(t));
    assert(pool.contains(tree_str(t)));
    match t {
        Tree::If(c, ch) => {
            assert forall|q: int| 0 <= q < trees_strs(ch).len() implies pool.contains(
                #[trigger] trees_strs(ch)[q],
            ) by {
                assert(tree_strs(t)[1 + q] == trees_strs(ch)[q]);
            }
            lemma_strs_in_list(ch, pool);
        },
        Tree::For(v, ch) => {
            assert forall|q: int| 0 <= q < trees_strs(ch).len() implies pool.contains(
                #[trigger] trees_strs(ch)[q],
            ) by {
                assert(tree_strs(t)[1 + q] == trees_strs(ch)[q]);
            }
            lemma_strs_in_list(ch, pool);
        },
        Tree::Define(n, ch) => {
            assert forall|q: int| 0 <= q < trees_strs(ch).len() implies pool.contains(
                #[trigger] trees_strs(ch)[q],
            ) by {
                assert(tree_strs(t)[1 + q] == trees_strs(ch)[q]);
            }
            lemma_strs_in_list(ch, pool);
        },
        _ => {},
    }
}

proof fn lemma_strs_in_list(ts: Seq<Tree>, pool: Seq<Seq<u8>>)
    requires
        forall|q: int|
            0 <= q < trees_strs(ts).len() ==> pool.contains(#[trigger] trees_strs(ts)[q]),
    ensures
        list_strs_in(ts, pool),
    decreases ts,
{
    if ts.len() > 0 {
        let h = ts[0];
        let rest = ts.drop_first();
        assert forall|q: int| 0 <= q < tree_strs(h).len() implies pool.contains(
            #[trigger] tree_strs(h)[q],
        ) by {
            assert(trees_strs(ts)[q] == tree_strs(h)[q]);
        }
        lemma_strs_in_tree(h, pool);
        assert forall|q: int| 0 <= q < trees_strs(rest).len() implies pool.contains(
            #[trigger] trees_strs(rest)[q],
        ) by {
            assert(trees_strs(ts)[tree_strs(h).len() + q] == trees_strs(rest)[q]);
        }
        lemma_strs_in_list(rest, pool);
    }
}

/// Law: round trip. Decoding a blob the encoder accepted yields exactly
/// the string pool and the trees of the encoded document: the blob loses
/// no structure but the spans.
#[verifier::rlimit(100)]
pub proof fn lemma_round_trip(d: DocV, max: u32)
    requires
        crate::encode::encode_spec(d, max) is Ok,
    ensures
        decode_spec(crate::encode::encode_spec(d, max)->Ok_0) == Some(
            (pool_of(doc_trees(d)), doc_trees(d)),
        ),
{
    let ts = doc_trees(d);
    let pool = pool_of(ts);
    let ps = pool_section(pool);
    let entries = pool_entries(pool);
    let tb = table_section(ts, pool);
    let body = ps + tb;
    let b = blob_bytes(ts);
    let cnt = trees_cnt(ts);
    assert(crate::encode::encode_spec(d, max)->Ok_0 == b);
    assert(!crate::encode::cnt_bad(d) && !crate::encode::pool_bad(d) && !crate::encode::size_bad(
        d,
        max,
    ));
    lemma_list_recs_len(ts, pool);
    assert(tb.len() == 4 + 9 * cnt);
    assert(ps.len() == 4 + entries.len());
    let hd = seq![70u8, 73u8, 82u8, 49u8] + le16(1) + le16(0) + le32(24) + le32(
        (24 + ps.len()) as nat,
    ) + le64(fnv64(body) as nat);
    assert(b == hd + body);
    assert(hd.len() == 24);
    assert(b.len() == 24 + body.len());
    assert(24 + ps.len() + tb.len() <= max);
    let toff = 24 + ps.len() as int;
    assert(b[0] == 70 && b[1] == 73 && b[2] == 82 && b[3] == 49);
    assert(b.subrange(4, 6) =~= le16(1));
    lemma_rd16(b, 4, 1);
    assert(b.subrange(6, 8) =~= le16(0));
    lemma_rd16(b, 6, 0);
    assert(b.subrange(8, 12) =~= le32(24));
    lemma_rd32(b, 8, 24);
    assert(b.subrange(12, 16) =~= le32((24 + ps.len()) as nat));
    lemma_rd32(b, 12, (24 + ps.len()) as nat);
    assert(b.subrange(16, 24) =~= le64(fnv64(body) as nat));
    lemma_rd64(b, 16, fnv64(body) as nat);
    assert(b.subrange(24, b.len() as int) =~= body);
    assert(rd64(b, 16) == fnv64(b.subrange(24, b.len() as int)));
    assert(b.subrange(24, 24 + body.len() as int) == body);
    assert(pool.len() <= LIMIT32);
    assert forall|j: int| 0 <= j < pool.len() implies (#[trigger] pool[j]).len() <= LIMIT32 by {
        if pool[j].len() > LIMIT32 {
            assert(0 <= j < pool.len() && (#[trigger] pool[j]).len() > LIMIT32);
        }
    }
    lemma_sub_sub(b, 24, 0, 4, body);
    assert(body.subrange(0, 4) =~= le32(pool.len() as nat));
    lemma_rd32(b, 24, pool.len() as nat);
    lemma_sub_sub(b, 24, 4, 4 + entries.len() as int, body);
    assert(body.subrange(4, 4 + entries.len() as int) =~= entries);
    lemma_parse_pool(b, 28, pool);
    assert(parse_pool(b, 28, pool.len() as nat) == Some((pool, 28 + entries.len() as int)));
    assert(28 + entries.len() as int == toff);
    assert(cnt <= LIMIT32);
    lemma_sub_sub(b, 24, ps.len() as int, ps.len() as int + 4, body);
    assert(body.subrange(ps.len() as int, ps.len() as int + 4) =~= le32(cnt));
    lemma_rd32(b, toff, cnt);
    assert(toff + 4 + 9 * cnt == b.len());
    lemma_sub_sub(b, 24, ps.len() as int + 4, body.len() as int, body);
    assert(body.subrange(ps.len() as int + 4, body.len() as int) =~= trees_recs(ts, pool));
    assert forall|q: int| 0 <= q < d.arena.len() implies tree_cnt(
        #[trigger] tree_of(d.arena, q),
    ) <= LIMIT32 by {
        if tree_cnt(tree_of(d.arena, q)) > LIMIT32 {
            assert(0 <= q < d.arena.len() && tree_cnt(tree_of(d.arena, q)) > LIMIT32);
        }
    }
    lemma_cnts_ok_list(d.arena, d.roots, d.arena.len() as int);
    assert forall|q: int| 0 <= q < trees_strs(ts).len() implies pool.contains(
        #[trigger] trees_strs(ts)[q],
    ) by {
        assert(trees_strs(ts).contains(trees_strs(ts)[q]));
        lemma_dedup_keeps(Seq::empty(), trees_strs(ts), trees_strs(ts)[q]);
    }
    lemma_strs_in_list(ts, pool);
    lemma_build_list_rt(b, pool, ts, toff + 4, b.len() as int);
    assert(decode_spec(b) == Some((pool, ts)));
}

} // verus!
