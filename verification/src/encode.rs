//! The binary encoder: a validated document to a compact, versioned,
//! checksummed blob. The layout is fixed: a 24-byte header (magic, version,
//! flags, string-pool offset, node-table offset, checksum), then a string
//! pool of length-prefixed strings deduplicated in first-occurrence
//! pre-order, then the node table in the same pre-order, each record
//! holding a tag, a string-pool index and the record count of its subtree.
//! All integers are little-endian; the checksum is 64-bit FNV-1a over the
//! two sections. Identical documents yield byte-identical blobs.
use vstd::prelude::*;

verus! {

use crate::diag::{Span, Stage, DiagKind, DiagKindV, Diagnostic, DiagV, names_view};
use crate::ast::{Node, NodeV, Document, DocV, Tree, tree_of, trees_of, doc_trees, node_children,
    bytes_eq, nodes_view};
use crate::Blob;

pub const FNV_BASIS: u64 = 0xcbf2_9ce4_8422_2325;

pub const FNV_PRIME: u64 = 0x0000_0100_0000_01b3;

pub const LIMIT32: u64 = 0xffff_ffff;

/// The record tag of a tree node.
pub open spec fn tree_tag(t: Tree) -> u8 {
    match t {
        Tree::Text(_) => 0,
        Tree::Interpolation(_) => 1,
        Tree::If(_, _) => 2,
        Tree::For(_, _) => 3,
        Tree::Include(_) => 4,
        Tree::Call(_) => 5,
        Tree::Define(_, _) => 6,
    }
}

/// The one string a tree node carries.
pub open spec fn tree_str(t: Tree) -> Seq<u8> {
    match t {
        Tree::Text(b) => b,
        Tree::Interpolation(n) => n,
        Tree::If(c, _) => c,
        Tree::For(v, _) => v,
        Tree::Include(g) => g,
        Tree::Call(g) => g,
        Tree::Define(n, _) => n,
    }
}

/// The string a node carries.
pub open spec fn node_str(n: NodeV) -> Seq<u8> {
    match n {
        NodeV::Text { text, .. } => text,
        NodeV::Interpolation { name, .. } => name,
        NodeV::If { cond, .. } => cond,
        NodeV::For { var, .. } => var,
        NodeV::Include { target, .. } => target,
        NodeV::Call { target, .. } => target,
        NodeV::Define { name, .. } => name,
    }
}

/// The number of records a tree occupies: itself plus its descendants.
pub open spec fn tree_cnt(t: Tree) -> nat
    decreases t,
{
    match t {
        Tree::If(_, ch) => 1 + trees_cnt(ch),
        Tree::For(_, ch) => 1 + trees_cnt(ch),
        Tree::Define(_, ch) => 1 + trees_cnt(ch),
        _ => 1,
    }
}

/// The number of records a forest occupies.
pub open spec fn trees_cnt(ts: Seq<Tree>) -> nat
    decreases ts,
{
    if ts.len() == 0 {
        0
    } else {
        tree_cnt(ts[0]) + trees_cnt(ts.drop_first())
    }
}

/// The strings of a tree in pre-order: its own, then its children's.
pub open spec fn tree_strs(t: Tree) -> Seq<Seq<u8>>
    decreases t,
{
    match t {
        Tree::If(c, ch) => seq![c] + trees_strs(ch),
        Tree::For(v, ch) => seq![v] + trees_strs(ch),
        Tree::Define(n, ch) => seq![n] + trees_strs(ch),
        _ => seq![tree_str(t)],
    }
}

/// The strings of a forest in pre-order.
pub open spec fn trees_strs(ts: Seq<Tree>) -> Seq<Seq<u8>>
    decreases ts,
{
    if ts.len() == 0 {
        Seq::empty()
    } else {
        tree_strs(ts[0]) + trees_strs(ts.drop_first())
    }
}

/// First-occurrence deduplication of `s` appended to `acc`.
pub open spec fn dedup(acc: Seq<Seq<u8>>, s: Seq<Seq<u8>>) -> Seq<Seq<u8>>
    decreases s.len(),
{
    if s.len() == 0 {
        acc
    } else {
        dedup(
            if acc.contains(s[0]) {
                acc
            } else {
                acc.push(s[0])
            },
            s.drop_first(),
        )
    }
}

/// The string pool of a forest: its strings in first-occurrence pre-order,
/// each exactly once.
pub open spec fn pool_of(ts: Seq<Tree>) -> Seq<Seq<u8>> {
    dedup(Seq::empty(), trees_strs(ts))
}

/// The position of the first occurrence of `s` in the pool (0 when
/// absent, which encoding never relies on).
pub open spec fn idx_of(pool: Seq<Seq<u8>>, s: Seq<u8>, j: int) -> int
    decreases pool.len() - j,
{
    if !(0 <= j < pool.len()) {
        0
    } else if pool[j] == s {
        j
    } else {
        idx_of(pool, s, j + 1)
    }
}

/// Two little-endian bytes.
pub open spec fn le16(x: nat) -> Seq<u8> {
    seq![(x % 0x100) as u8, (x / 0x100 % 0x100) as u8]
}

/// Four little-endian bytes.
pub open spec fn le32(x: nat) -> Seq<u8> {
    seq![
        (x % 0x100) as u8,
        (x / 0x100 % 0x100) as u8,
        (x / 0x10000 % 0x100) as u8,
        (x / 0x1000000 % 0x100) as u8,
    ]
}

/// Eight little-endian bytes.
pub open spec fn le64(x: nat) -> Seq<u8> {
    le32(x % 0x1_0000_0000) + le32(x / 0x1_0000_0000)
}

/// One node record: tag, string-pool index, subtree record count.
pub open spec fn rec9(tag: u8, sym: nat, cnt: nat) -> Seq<u8> {
    seq![tag] + le32(sym) + le32(cnt)
}

/// The records of a tree, pre-order.
pub open spec fn tree_recs(t: Tree, pool: Seq<Seq<u8>>) -> Seq<u8>
    decreases t,
{
    match t {
        Tree::If(c, ch) => rec9(2, idx_of(pool, c, 0) as nat, 1 + trees_cnt(ch)) + trees_recs(
            ch,
            pool,
        ),
        Tree::For(v, ch) => rec9(3, idx_of(pool, v, 0) as nat, 1 + trees_cnt(ch)) + trees_recs(
            ch,
            pool,
        ),
        Tree::Define(n, ch) => rec9(6, idx_of(pool, n, 0) as nat, 1 + trees_cnt(ch)) + trees_recs(
            ch,
            pool,
        ),
        _ => rec9(tree_tag(t), idx_of(pool, tree_str(t), 0) as nat, 1),
    }
}

/// The records of a forest, pre-order.
pub open spec fn trees_recs(ts: Seq<Tree>, pool: Seq<Seq<u8>>) -> Seq<u8>
    decreases ts,
{
    if ts.len() == 0 {
        Seq::empty()
    } else {
        tree_recs(ts[0], pool) + trees_recs(ts.drop_first(), pool)
    }
}

/// The pool entries: each string length-prefixed.
pub open spec fn pool_entries(pool: Seq<Seq<u8>>) -> Seq<u8>
    decreases pool.len(),
{
    if pool.len() == 0 {
        Seq::empty()
    } else {
        le32(pool[0].len()) + pool[0] + pool_entries(pool.drop_first())
    }
}

/// The string-pool section: entry count, then the entries.
pub open spec fn pool_section(pool: Seq<Seq<u8>>) -> Seq<u8> {
    le32(pool.len()) + pool_entries(pool)
}

/// The node-table section: record count, then the records.
pub open spec fn table_section(ts: Seq<Tree>, pool: Seq<Seq<u8>>) -> Seq<u8> {
    le32(trees_cnt(ts)) + trees_recs(ts, pool)
}

/// One step of 64-bit FNV-1a.
pub open spec fn fnv_step(h: u64, b: u8) -> u64 {
    vstd::wrapping::u64_specs::wrapping_mul(h ^ (b as u64), FNV_PRIME)
}

/// FNV-1a folded over `s` from `i` with accumulator `h`.
pub open spec fn fnv_from(s: Seq<u8>, i: int, h: u64) -> u64
    decreases s.len() - i,
{
    if !(0 <= i < s.len()) {
        h
    } else {
        fnv_from(s, i + 1, fnv_step(h, s[i]))
    }
}

/// The 64-bit FNV-1a checksum of `s`.
pub open spec fn fnv64(s: Seq<u8>) -> u64 {
    fnv_from(s, 0, FNV_BASIS)
}

/// The whole blob of a forest: header, then string pool, then node table.
pub open spec fn blob_bytes(ts: Seq<Tree>) -> Seq<u8> {
    let pool = pool_of(ts);
    let ps = pool_section(pool);
    let tb = table_section(ts, pool);
    let body = ps + tb;
    seq![70u8, 73u8, 82u8, 49u8] + le16(1) + le16(0) + le32(24) + le32(24 + ps.len()) + le64(
        fnv64(body) as nat,
    ) + body
}

/// Whether some `Define` node sits below another node: such a document
/// cannot be encoded.
pub open spec fn nested_define(d: DocV) -> bool {
    exists|i: int, k: int|
        0 <= i < d.arena.len() && 0 <= k < node_children(d.arena[i]).len() && (node_children(
            d.arena[i],
        )[k] as int) < i && d.arena[node_children(d.arena[i])[k] as int] is Define
}

/// Whether some subtree, or the whole document, has more records than a
/// 32-bit count can hold.
pub open spec fn cnt_bad(d: DocV) -> bool {
    (exists|i: int|
        0 <= i < d.arena.len() && tree_cnt(tree_of(d.arena, i)) > LIMIT32) || trees_cnt(
        doc_trees(d),
    ) > LIMIT32
}

/// Whether some pooled string is longer than a 32-bit length can hold, or
/// the pool itself has too many entries.
pub open spec fn pool_bad(d: DocV) -> bool {
    let pool = pool_of(doc_trees(d));
    pool.len() > LIMIT32 || exists|j: int| 0 <= j < pool.len() && (#[trigger] pool[j]).len()
        > LIMIT32
}

/// Whether the finished blob would exceed `max`.
pub open spec fn size_bad(d: DocV, max: u32) -> bool {
    let pool = pool_of(doc_trees(d));
    24 + pool_section(pool).len() + table_section(doc_trees(d), pool).len() > max
}

/// A diagnostic from the encoding stage.
pub open spec fn enc_diag(kind: DiagKindV) -> DiagV {
    DiagV { stage: Stage::Encode, kind, span: Span { lo: 0, hi: 0 } }
}

/// The encoder's defining equation: an unsupported construct (a nested
/// definition) is refused first; then any quantity a 32-bit field cannot
/// hold, or a blob over `max`, is refused as too large; otherwise the blob
/// is exactly `blob_bytes` of the document's trees.
pub open spec fn encode_spec(d: DocV, max: u32) -> Result<Seq<u8>, DiagV> {
    if nested_define(d) {
        Err(enc_diag(DiagKindV::UnsupportedConstruct))
    } else if cnt_bad(d) || pool_bad(d) || size_bad(d, max) {
        Err(enc_diag(DiagKindV::PayloadTooLarge))
    } else {
        Ok(blob_bytes(doc_trees(d)))
    }
}


proof fn lemma_trees_cnt_cons(x: Tree, rest: Seq<Tree>)
    ensures
        trees_cnt(seq![x] + rest) == tree_cnt(x) + trees_cnt(rest),
{
    assert((seq![x] + rest)[0] == x);
    assert((seq![x] + rest).drop_first() =~= rest);
}

proof fn lemma_trees_strs_cons(x: Tree, rest: Seq<Tree>)
    ensures
        trees_strs(seq![x] + rest) == tree_strs(x) + trees_strs(rest),
{
    assert((seq![x] + rest)[0] == x);
    assert((seq![x] + rest).drop_first() =~= rest);
}

proof fn lemma_trees_recs_cons(x: Tree, rest: Seq<Tree>, pool: Seq<Seq<u8>>)
    ensures
        trees_recs(seq![x] + rest, pool) == tree_recs(x, pool) + trees_recs(rest, pool),
{
    assert((seq![x] + rest)[0] == x);
    assert((seq![x] + rest).drop_first() =~= rest);
}

fn push_le16(out: &mut Vec<u8>, x: u16)
    ensures
        final(out)@ == old(out)@ + le16(x as nat),
{
    out.push((x % 0x100) as u8);
    out.push((x / 0x100) as u8);
    proof {
        assert(out@ =~= old(out)@ + le16(x as nat));
    }
}

fn push_le32(out: &mut Vec<u8>, x: u32)
    ensures
        final(out)@ == old(out)@ + le32(x as nat),
{
    out.push((x % 0x100) as u8);
    out.push((x / 0x100 % 0x100) as u8);
    out.push((x / 0x10000 % 0x100) as u8);
    out.push((x / 0x1000000) as u8);
    proof {
        assert(x / 0x1000000 < 0x100) by {
            assert(x <= 0xffff_ffffu32);
        }
        assert(out@ =~= old(out)@ + le32(x as nat));
    }
}

fn push_le64(out: &mut Vec<u8>, x: u64)
    ensures
        final(out)@ == old(out)@ + le64(x as nat),
{
    let lo = (x % 0x1_0000_0000) as u32;
    let hi = (x / 0x1_0000_0000) as u32;
    push_le32(out, lo);
    push_le32(out, hi);
    proof {
        assert(x / 0x1_0000_0000 < 0x1_0000_0000) by {
            assert(x <= 0xffff_ffff_ffff_ffffu64);
        }
        assert(out@ =~= old(out)@ + le64(x as nat));
    }
}

/// Appends `b` to `out`.
fn push_all(out: &mut Vec<u8>, b: &Vec<u8>)
    ensures
        final(out)@ == old(out)@ + b@,
{
    let mut t: usize = 0;
    while t < b.len()
        invariant
            t <= b.len(),
            out@ == old(out)@ + b@.subrange(0, t as int),
        decreases b.len() - t,
    {
        out.push(b[t]);
        t = t + 1;
        proof {
            assert(old(out)@ + b@.subrange(0, t - 1) + seq![b@[t - 1]] =~= old(out)@ + b@.subrange(
                0,
                t as int,
            ));
        }
    }
    proof {
        assert(out@ =~= old(out)@ + b@);
    }
}

/// Whether a `Define` node is the child of some node.
fn has_nested_define(doc: &Document) -> (r: bool)
    ensures
        r == nested_define(doc@),
{
    let ghost av = nodes_view(doc.arena@);
    let mut i: usize = 0;
    while i < doc.arena.len()
        invariant
            i <= doc.arena.len(),
            av == nodes_view(doc.arena@),
            forall|p: int, k: int|
                0 <= p < i && 0 <= k < node_children(av[p]).len() ==> !((node_children(av[p])[k]
                    as int) < p && av[node_children(av[p])[k] as int] is Define),
        decreases doc.arena.len() - i,
    {
        proof {
            assert(av[i as int] == doc.arena@[i as int]@);
        }
        let found = match &doc.arena[i] {
            Node::If { children, .. } => child_define(&doc.arena, children, i),
            Node::For { children, .. } => child_define(&doc.arena, children, i),
            Node::Define { children, .. } => child_define(&doc.arena, children, i),
            _ => false,
        };
        proof {
            if !found {
                assert(forall|k: int|
                    0 <= k < node_children(av[i as int]).len() ==> !((node_children(
                        av[i as int],
                    )[k] as int) < i && av[node_children(av[i as int])[k] as int] is Define));
            }
        }
        if found {
            return true;
        }
        i = i + 1;
    }
    proof {
        assert(!nested_define(doc@)) by {
            if nested_define(doc@) {
                let (p, k) = choose|p: int, k: int|
                    0 <= p < av.len() && 0 <= k < node_children(av[p]).len() && (node_children(
                        av[p],
                    )[k] as int) < p && av[node_children(av[p])[k] as int] is Define;
                assert(!((node_children(av[p])[k] as int) < p && av[node_children(av[p])[k] as int]
                    is Define));
            }
        }
    }
    false
}

/// Whether some child of node `bound` (among `ch`) is a `Define`.
fn child_define(arena: &Vec<Node>, ch: &Vec<usize>, bound: usize) -> (r: bool)
    requires
        bound <= arena@.len(),
        node_children(nodes_view(arena@)[bound as int]) == ch@,
    ensures
        r == exists|k: int|
            0 <= k < ch@.len() && (ch@[k] as int) < bound && nodes_view(arena@)[ch@[k] as int]
                is Define,
{
    let ghost av = nodes_view(arena@);
    let mut k: usize = 0;
    while k < ch.len()
        invariant
            k <= ch.len(),
            bound <= arena@.len(),
            av == nodes_view(arena@),
            forall|q: int|
                0 <= q < k ==> !((ch@[q] as int) < bound && av[ch@[q] as int] is Define),
        decreases ch.len() - k,
    {
        let c = ch[k];
        if c < bound {
            proof {
                assert(av[c as int] == arena@[c as int]@);
            }
            if matches!(&arena[c], Node::Define { .. }) {
                return true;
            }
        }
        k = k + 1;
    }
    proof {
        assert(!(exists|q: int|
            0 <= q < ch@.len() && (ch@[q] as int) < bound && av[ch@[q] as int] is Define)) by {
            if exists|q: int|
                0 <= q < ch@.len() && (ch@[q] as int) < bound && av[ch@[q] as int] is Define {
                let q = choose|q: int|
                    0 <= q < ch@.len() && (ch@[q] as int) < bound && av[ch@[q] as int] is Define;
                assert(!((ch@[q] as int) < bound && av[ch@[q] as int] is Define));
            }
        }
    }
    false
}

/// Sums the recorded subtree counts over a child list; `None` when the sum
/// leaves 32 bits.
fn sum_children(vals: &Vec<u64>, ch: &Vec<usize>, bound: usize, Ghost(av): Ghost<Seq<NodeV>>) -> (r:
    Option<u64>)
    requires
        bound <= vals@.len(),
        forall|q: int|
            0 <= q < bound ==> (#[trigger] vals@[q]) as nat == tree_cnt(tree_of(av, q)) && vals@[q]
                <= LIMIT32,
    ensures
        match r {
            Some(s) => s as nat == trees_cnt(trees_of(av, ch@, bound as int)) && s <= LIMIT32,
            None => trees_cnt(trees_of(av, ch@, bound as int)) > LIMIT32,
        },
{
    let mut acc: u64 = 0;
    let mut t: usize = 0;
    proof {
        assert(ch@.skip(0) =~= ch@);
    }
    while t < ch.len()
        invariant
            t <= ch.len(),
            acc <= LIMIT32,
            bound <= vals@.len(),
            forall|q: int|
                0 <= q < bound ==> (#[trigger] vals@[q]) as nat == tree_cnt(tree_of(av, q))
                    && vals@[q] <= LIMIT32,
            trees_cnt(trees_of(av, ch@, bound as int)) == acc as nat + trees_cnt(
                trees_of(av, ch@.skip(t as int), bound as int),
            ),
        decreases ch.len() - t,
    {
        let c = ch[t];
        proof {
            assert(ch@.skip(t as int)[0] == ch@[t as int]);
            assert(ch@.skip(t as int).drop_first() =~= ch@.skip(t + 1));
            if (c as int) < bound {
                assert(trees_of(av, ch@.skip(t as int), bound as int) == seq![
                    tree_of(av, c as int),
                ] + trees_of(av, ch@.skip(t + 1), bound as int));
                lemma_trees_cnt_cons(
                    tree_of(av, c as int),
                    trees_of(av, ch@.skip(t + 1), bound as int),
                );
            }
        }
        if c < bound {
            let s2 = acc + vals[c];
            if s2 > LIMIT32 {
                return None;
            }
            acc = s2;
        }
        t = t + 1;
    }
    proof {
        assert(ch@.skip(ch@.len() as int).len() == 0);
    }
    Some(acc)
}

/// The record count of every subtree, bottom-up; `None` when any count
/// leaves 32 bits.
fn counts(arena: &Vec<Node>) -> (r: Option<Vec<u64>>)
    ensures
        match r {
            Some(v) => v@.len() == arena@.len() && forall|i: int|
                0 <= i < arena@.len() ==> (#[trigger] v@[i]) as nat == tree_cnt(
                    tree_of(nodes_view(arena@), i),
                ) && v@[i] <= LIMIT32,
            None => exists|i: int|
                0 <= i < arena@.len() && tree_cnt(tree_of(nodes_view(arena@), i)) > LIMIT32,
        },
{
    let ghost av = nodes_view(arena@);
    let mut v: Vec<u64> = Vec::new();
    let mut i: usize = 0;
    while i < arena.len()
        invariant
            i <= arena.len(),
            v@.len() == i,
            av == nodes_view(arena@),
            forall|q: int|
                0 <= q < i ==> (#[trigger] v@[q]) as nat == tree_cnt(tree_of(av, q)) && v@[q]
                    <= LIMIT32,
        decreases arena.len() - i,
    {
        proof {
            assert(av[i as int] == arena@[i as int]@);
        }
        let mut c: u64 = 1;
        let mut bad = false;
        match &arena[i] {
            Node::If { children, .. } => {
                match sum_children(&v, children, i, Ghost(av)) {
                    Some(s) => {
                        if s >= LIMIT32 {
                            bad = true;
                        } else {
                            c = 1 + s;
                        }
                    },
                    None => {
                        bad = true;
                    },
                }
            },
            Node::For { children, .. } => {
                match sum_children(&v, children, i, Ghost(av)) {
                    Some(s) => {
                        if s >= LIMIT32 {
                            bad = true;
                        } else {
                            c = 1 + s;
                        }
                    },
                    None => {
                        bad = true;
                    },
                }
            },
            Node::Define { children, .. } => {
                match sum_children(&v, children, i, Ghost(av)) {
                    Some(s) => {
                        if s >= LIMIT32 {
                            bad = true;
                        } else {
                            c = 1 + s;
                        }
                    },
                    None => {
                        bad = true;
                    },
                }
            },
            _ => {},
        }
        if bad {
            proof {
                assert(tree_cnt(tree_of(av, i as int)) > LIMIT32);
            }
            return None;
        }
        proof {
            assert(c as nat == tree_cnt(tree_of(av, i as int)));
        }
        v.push(c);
        i = i + 1;
    }
    Some(v)
}

/// Appends copies of every byte string of `src`.
fn append_list(out: &mut Vec<Vec<u8>>, src: &Vec<Vec<u8>>)
    ensures
        names_view(final(out)@) == names_view(old(out)@) + names_view(src@),
{
    let mut x: usize = 0;
    while x < src.len()
        invariant
            x <= src.len(),
            names_view(out@) == names_view(old(out)@) + names_view(src@.subrange(0, x as int)),
        decreases src.len() - x,
    {
        let ghost o0 = out@;
        out.push(crate::ast::dup_bytes(&src[x]));
        x = x + 1;
        proof {
            assert(names_view(out@) =~= names_view(o0).push(src@[x - 1]@));
            assert(names_view(old(out)@) + names_view(src@.subrange(0, x as int)) =~= names_view(
                o0,
            ).push(src@[x - 1]@));
        }
    }
    proof {
        assert(names_view(src@.subrange(0, src@.len() as int)) =~= names_view(src@));
    }
}

/// Appends the pre-order strings of the subtrees at `ch`.
fn append_strs(
    out: &mut Vec<Vec<u8>>,
    lists: &Vec<Vec<Vec<u8>>>,
    ch: &Vec<usize>,
    bound: usize,
    Ghost(av): Ghost<Seq<NodeV>>,
)
    requires
        bound <= lists@.len(),
        forall|q: int|
            0 <= q < bound ==> names_view((#[trigger] lists@[q])@) == tree_strs(tree_of(av, q)),
    ensures
        names_view(final(out)@) == names_view(old(out)@) + trees_strs(
            trees_of(av, ch@, bound as int),
        ),
{
    let mut t: usize = 0;
    proof {
        assert(ch@.skip(0) =~= ch@);
    }
    while t < ch.len()
        invariant
            t <= ch.len(),
            bound <= lists@.len(),
            forall|q: int|
                0 <= q < bound ==> names_view((#[trigger] lists@[q])@) == tree_strs(
                    tree_of(av, q),
                ),
            names_view(old(out)@) + trees_strs(trees_of(av, ch@, bound as int)) == names_view(out@)
                + trees_strs(trees_of(av, ch@.skip(t as int), bound as int)),
        decreases ch.len() - t,
    {
        let ghost o0 = out@;
        let c = ch[t];
        proof {
            assert(ch@.skip(t as int)[0] == ch@[t as int]);
            assert(ch@.skip(t as int).drop_first() =~= ch@.skip(t + 1));
        }
        if c < bound {
            append_list(out, &lists[c]);
            proof {
                assert(trees_of(av, ch@.skip(t as int), bound as int) == seq![
                    tree_of(av, c as int),
                ] + trees_of(av, ch@.skip(t + 1), bound as int));
                lemma_trees_strs_cons(
                    tree_of(av, c as int),
                    trees_of(av, ch@.skip(t + 1), bound as int),
                );
                assert(names_view(o0) + trees_strs(trees_of(av, ch@.skip(t as int), bound as int))
                    =~= names_view(out@) + trees_strs(trees_of(av, ch@.skip(t + 1), bound as int)));
            }
        }
        t = t + 1;
    }
    proof {
        assert(ch@.skip(ch@.len() as int).len() == 0);
        assert(names_view(old(out)@) + trees_strs(trees_of(av, ch@, bound as int)) =~= names_view(
            out@,
        ));
    }
}

/// The pre-order string list of every subtree, bottom-up.
fn strs_lists(arena: &Vec<Node>) -> (v: Vec<Vec<Vec<u8>>>)
    ensures
        v@.len() == arena@.len(),
        forall|i: int|
            0 <= i < arena@.len() ==> names_view((#[trigger] v@[i])@) == tree_strs(
                tree_of(nodes_view(arena@), i),
            ),
{
    let ghost av = nodes_view(arena@);
    let mut v: Vec<Vec<Vec<u8>>> = Vec::new();
    let mut i: usize = 0;
    while i < arena.len()
        invariant
            i <= arena.len(),
            v@.len() == i,
            av == nodes_view(arena@),
            forall|q: int|
                0 <= q < i ==> names_view((#[trigger] v@[q])@) == tree_strs(tree_of(av, q)),
        decreases arena.len() - i,
    {
        proof {
            assert(av[i as int] == arena@[i as int]@);
        }
        let mut mine: Vec<Vec<u8>> = Vec::new();
        let own: Vec<u8> = match &arena[i] {
            Node::Text { text, .. } => crate::ast::dup_bytes(text),
            Node::Interpolation { name, .. } => crate::ast::dup_bytes(name),
            Node::If { cond, .. } => crate::ast::dup_bytes(cond),
            Node::For { var, .. } => crate::ast::dup_bytes(var),
            Node::Include { target, .. } => crate::ast::dup_bytes(target),
            Node::Call { target, .. } => crate::ast::dup_bytes(target),
            Node::Define { name, .. } => crate::ast::dup_bytes(name),
        };
        mine.push(own);
        proof {
            assert(names_view(mine@) =~= seq![node_str(av[i as int])]);
        }
        match &arena[i] {
            Node::If { children, .. } => append_strs(&mut mine, &v, children, i, Ghost(av)),
            Node::For { children, .. } => append_strs(&mut mine, &v, children, i, Ghost(av)),
            Node::Define { children, .. } => append_strs(&mut mine, &v, children, i, Ghost(av)),
            _ => {},
        }
        proof {
            assert(names_view(mine@) =~= tree_strs(tree_of(av, i as int)));
        }
        v.push(mine);
        i = i + 1;
    }
    v
}

/// Whether `s` is already pooled.
fn list_contains(v: &Vec<Vec<u8>>, s: &Vec<u8>) -> (r: bool)
    ensures
        r == names_view(v@).contains(s@),
{
    let mut j: usize = 0;
    while j < v.len()
        invariant
            j <= v.len(),
            forall|q: int| 0 <= q < j ==> names_view(v@)[q] != s@,
        decreases v.len() - j,
    {
        if bytes_eq(&v[j], s) {
            proof {
                assert(names_view(v@)[j as int] == s@);
            }
            return true;
        }
        j = j + 1;
    }
    proof {
        assert(!names_view(v@).contains(s@)) by {
            if names_view(v@).contains(s@) {
                let q = choose|q: int|
                    0 <= q < names_view(v@).len() && names_view(v@)[q] == s@;
                assert(names_view(v@)[q] != s@);
            }
        }
    }
    false
}

/// The string pool: `flat` deduplicated in first-occurrence order.
fn build_pool(flat: &Vec<Vec<u8>>) -> (pool: Vec<Vec<u8>>)
    ensures
        names_view(pool@) == dedup(Seq::empty(), names_view(flat@)),
{
    let ghost fv = names_view(flat@);
    let mut pool: Vec<Vec<u8>> = Vec::new();
    let mut t: usize = 0;
    proof {
        assert(fv.skip(0) =~= fv);
        assert(names_view(pool@) =~= Seq::<Seq<u8>>::empty());
    }
    while t < flat.len()
        invariant
            t <= flat.len(),
            fv == names_view(flat@),
            dedup(Seq::empty(), fv) == dedup(names_view(pool@), fv.skip(t as int)),
        decreases flat.len() - t,
    {
        let ghost p0 = pool@;
        proof {
            assert(fv.skip(t as int)[0] == fv[t as int]);
            assert(fv.skip(t as int).drop_first() =~= fv.skip(t + 1));
            assert(fv[t as int] == flat@[t as int]@);
        }
        if !list_contains(&pool, &flat[t]) {
            pool.push(crate::ast::dup_bytes(&flat[t]));
            proof {
                assert(names_view(pool@) =~= names_view(p0).push(fv[t as int]));
            }
        }
        t = t + 1;
    }
    proof {
        assert(fv.skip(fv.len() as int).len() == 0);
    }
    pool
}

/// The pool position of `s` (its first occurrence; 0 when absent).
fn pool_idx(pool: &Vec<Vec<u8>>, s: &Vec<u8>) -> (r: usize)
    ensures
        r as int == idx_of(names_view(pool@), s@, 0),
        r <= pool@.len(),
{
    let ghost pv = names_view(pool@);
    let mut j: usize = 0;
    while j < pool.len()
        invariant
            j <= pool.len(),
            pv == names_view(pool@),
            idx_of(pv, s@, 0) == idx_of(pv, s@, j as int),
        decreases pool.len() - j,
    {
        if bytes_eq(&pool[j], s) {
            proof {
                assert(pv[j as int] == s@);
            }
            return j;
        }
        j = j + 1;
    }
    0
}

/// Whether the pool has too many entries or one too long for 32 bits.
fn pool_too_big(pool: &Vec<Vec<u8>>) -> (r: bool)
    ensures
        r == (names_view(pool@).len() > LIMIT32 || exists|j: int|
            0 <= j < names_view(pool@).len() && (#[trigger] names_view(pool@)[j]).len() > LIMIT32),
{
    let ghost pv = names_view(pool@);
    if pool.len() as u64 > LIMIT32 {
        return true;
    }
    let mut j: usize = 0;
    while j < pool.len()
        invariant
            j <= pool.len(),
            pv == names_view(pool@),
            forall|q: int| 0 <= q < j ==> (#[trigger] pv[q]).len() <= LIMIT32,
        decreases pool.len() - j,
    {
        if pool[j].len() as u64 > LIMIT32 {
            proof {
                assert(pv[j as int].len() > LIMIT32);
            }
            return true;
        }
        j = j + 1;
    }
    proof {
        assert(!(exists|q: int| 0 <= q < pv.len() && (#[trigger] pv[q]).len() > LIMIT32)) by {
            if exists|q: int| 0 <= q < pv.len() && (#[trigger] pv[q]).len() > LIMIT32 {
                let q = choose|q: int| 0 <= q < pv.len() && (#[trigger] pv[q]).len() > LIMIT32;
                assert(pv[q].len() <= LIMIT32);
            }
        }
    }
    false
}

/// Builds the string-pool section.
fn build_pool_section(pool: &Vec<Vec<u8>>) -> (ps: Vec<u8>)
    requires
        pool@.len() <= LIMIT32,
        forall|j: int| 0 <= j < pool@.len() ==> (#[trigger] pool@[j])@.len() <= LIMIT32,
    ensures
        ps@ == pool_section(names_view(pool@)),
{
    let ghost pv = names_view(pool@);
    let mut ps: Vec<u8> = Vec::new();
    push_le32(&mut ps, pool.len() as u32);
    let mut t: usize = 0;
    proof {
        assert(pv.skip(0) =~= pv);
        assert(ps@ =~= le32(pv.len()));
    }
    while t < pool.len()
        invariant
            t <= pool.len(),
            pv == names_view(pool@),
            forall|j: int| 0 <= j < pool@.len() ==> (#[trigger] pool@[j])@.len() <= LIMIT32,
            pool_section(pv) == ps@ + pool_entries(pv.skip(t as int)),
        decreases pool.len() - t,
    {
        let ghost p0 = ps@;
        proof {
            assert(pv.skip(t as int)[0] == pv[t as int]);
            assert(pv.skip(t as int).drop_first() =~= pv.skip(t + 1));
            assert(pool@[t as int]@.len() <= LIMIT32);
        }
        push_le32(&mut ps, pool[t].len() as u32);
        push_all(&mut ps, &pool[t]);
        proof {
            assert(ps@ =~= p0 + le32(pv[t as int].len()) + pv[t as int]);
            assert(pool_section(pv) =~= ps@ + pool_entries(pv.skip(t + 1)));
        }
        t = t + 1;
    }
    proof {
        assert(pv.skip(pv.len() as int).len() == 0);
        assert(pool_section(pv) =~= ps@);
    }
    ps
}

/// Appends the pre-order records of the subtrees at `ch`.
fn append_recs(
    out: &mut Vec<u8>,
    rl: &Vec<Vec<u8>>,
    ch: &Vec<usize>,
    bound: usize,
    Ghost(av): Ghost<Seq<NodeV>>,
    Ghost(pv): Ghost<Seq<Seq<u8>>>,
)
    requires
        bound <= rl@.len(),
        forall|q: int|
            0 <= q < bound ==> (#[trigger] rl@[q])@ == tree_recs(tree_of(av, q), pv),
    ensures
        final(out)@ == old(out)@ + trees_recs(trees_of(av, ch@, bound as int), pv),
{
    let mut t: usize = 0;
    proof {
        assert(ch@.skip(0) =~= ch@);
    }
    while t < ch.len()
        invariant
            t <= ch.len(),
            bound <= rl@.len(),
            forall|q: int|
                0 <= q < bound ==> (#[trigger] rl@[q])@ == tree_recs(tree_of(av, q), pv),
            old(out)@ + trees_recs(trees_of(av, ch@, bound as int), pv) == out@ + trees_recs(
                trees_of(av, ch@.skip(t as int), bound as int),
                pv,
            ),
        decreases ch.len() - t,
    {
        let ghost o0 = out@;
        let c = ch[t];
        proof {
            assert(ch@.skip(t as int)[0] == ch@[t as int]);
            assert(ch@.skip(t as int).drop_first() =~= ch@.skip(t + 1));
        }
        if c < bound {
            push_all(out, &rl[c]);
            proof {
                assert(trees_of(av, ch@.skip(t as int), bound as int) == seq![
                    tree_of(av, c as int),
                ] + trees_of(av, ch@.skip(t + 1), bound as int));
                lemma_trees_recs_cons(
                    tree_of(av, c as int),
                    trees_of(av, ch@.skip(t + 1), bound as int),
                    pv,
                );
                assert(o0 + trees_recs(trees_of(av, ch@.skip(t as int), bound as int), pv) =~= out@
                    + trees_recs(trees_of(av, ch@.skip(t + 1), bound as int), pv));
            }
        }
        t = t + 1;
    }
    proof {
        assert(ch@.skip(ch@.len() as int).len() == 0);
        assert(old(out)@ + trees_recs(trees_of(av, ch@, bound as int), pv) =~= out@);
    }
}

/// The record bytes of every subtree, bottom-up.
fn recs_lists(arena: &Vec<Node>, cnts: &Vec<u64>, pool: &Vec<Vec<u8>>) -> (rl: Vec<Vec<u8>>)
    requires
        cnts@.len() == arena@.len(),
        forall|i: int|
            0 <= i < arena@.len() ==> (#[trigger] cnts@[i]) as nat == tree_cnt(
                tree_of(nodes_view(arena@), i),
            ) && cnts@[i] <= LIMIT32,
        pool@.len() <= LIMIT32,
    ensures
        rl@.len() == arena@.len(),
        forall|i: int|
            0 <= i < arena@.len() ==> (#[trigger] rl@[i])@ == tree_recs(
                tree_of(nodes_view(arena@), i),
                names_view(pool@),
            ),
{
    let ghost av = nodes_view(arena@);
    let ghost pv = names_view(pool@);
    let mut rl: Vec<Vec<u8>> = Vec::new();
    let mut i: usize = 0;
    while i < arena.len()
        invariant
            i <= arena.len(),
            rl@.len() == i,
            av == nodes_view(arena@),
            pv == names_view(pool@),
            cnts@.len() == arena@.len(),
            pool@.len() <= LIMIT32,
            forall|q: int|
                0 <= q < arena@.len() ==> (#[trigger] cnts@[q]) as nat == tree_cnt(
                    tree_of(av, q),
                ) && cnts@[q] <= LIMIT32,
            forall|q: int|
                0 <= q < i ==> (#[trigger] rl@[q])@ == tree_recs(tree_of(av, q), pv),
        decreases arena.len() - i,
    {
        proof {
            assert(av[i as int] == arena@[i as int]@);
        }
        let tag: u8 = match &arena[i] {
            Node::Text { .. } => 0,
            Node::Interpolation { .. } => 1,
            Node::If { .. } => 2,
            Node::For { .. } => 3,
            Node::Include { .. } => 4,
            Node::Call { .. } => 5,
            Node::Define { .. } => 6,
        };
        let sref: &Vec<u8> = match &arena[i] {
            Node::Text { text, .. } => text,
            Node::Interpolation { name, .. } => name,
            Node::If { cond, .. } => cond,
            Node::For { var, .. } => var,
            Node::Include { target, .. } => target,
            Node::Call { target, .. } => target,
            Node::Define { name, .. } => name,
        };
        let idx = pool_idx(pool, sref);
        let mut mine: Vec<u8> = Vec::new();
        mine.push(tag);
        push_le32(&mut mine, idx as u32);
        push_le32(&mut mine, cnts[i] as u32);
        proof {
            assert(tag == tree_tag(tree_of(av, i as int)));
            assert(sref@ == tree_str(tree_of(av, i as int)));
            assert(mine@ =~= rec9(
                tree_tag(tree_of(av, i as int)),
                idx_of(pv, tree_str(tree_of(av, i as int)), 0) as nat,
                tree_cnt(tree_of(av, i as int)),
            ));
        }
        match &arena[i] {
            Node::If { children, .. } => append_recs(
                &mut mine,
                &rl,
                children,
                i,
                Ghost(av),
                Ghost(pv),
            ),
            Node::For { children, .. } => append_recs(
                &mut mine,
                &rl,
                children,
                i,
                Ghost(av),
                Ghost(pv),
            ),
            Node::Define { children, .. } => append_recs(
                &mut mine,
                &rl,
                children,
                i,
                Ghost(av),
                Ghost(pv),
            ),
            _ => {},
        }
        proof {
            assert(mine@ =~= tree_recs(tree_of(av, i as int), pv));
        }
        rl.push(mine);
        i = i + 1;
    }
    rl
}

/// The FNV-1a checksum of `s`.
fn fnv_exec(s: &Vec<u8>) -> (h: u64)
    ensures
        h == fnv64(s@),
{
    let mut h: u64 = FNV_BASIS;
    let mut j: usize = 0;
    while j < s.len()
        invariant
            j <= s.len(),
            fnv64(s@) == fnv_from(s@, j as int, h),
        decreases s.len() - j,
    {
        h = (h ^ (s[j] as u64)).wrapping_mul(FNV_PRIME);
        j = j + 1;
    }
    h
}

/// Encodes a document into a blob no larger than `max_blob`. A nested
/// definition is refused as an unsupported construct; any count, length or
/// total size that its field cannot hold is refused as too large.
pub fn encode(doc: &Document, max_blob: u32) -> (r: Result<Blob, Diagnostic>)
    ensures
        ({
            let s = encode_spec(doc@, max_blob);
            match r {
                Ok(b) => s == Ok::<Seq<u8>, DiagV>(b@),
                Err(d) => s == Err::<Seq<u8>, DiagV>(d@),
            }
        }),
{
    let ghost av = nodes_view(doc.arena@);
    if has_nested_define(doc) {
        return Err(
            Diagnostic {
                stage: Stage::Encode,
                kind: DiagKind::UnsupportedConstruct,
                span: Span { lo: 0, hi: 0 },
            },
        );
    }
    let cnts = match counts(&doc.arena) {
        Some(v) => v,
        None => {
            return Err(
                Diagnostic {
                    stage: Stage::Encode,
                    kind: DiagKind::PayloadTooLarge,
                    span: Span { lo: 0, hi: 0 },
                },
            );
        },
    };
    let lists = strs_lists(&doc.arena);
    let mut flat: Vec<Vec<u8>> = Vec::new();
    append_strs(&mut flat, &lists, &doc.roots, doc.arena.len(), Ghost(av));
    proof {
        assert(names_view(flat@) =~= trees_strs(doc_trees(doc@)));
    }
    let pool = build_pool(&flat);
    proof {
        assert(names_view(pool@) == pool_of(doc_trees(doc@)));
    }
    if pool_too_big(&pool) {
        return Err(
            Diagnostic {
                stage: Stage::Encode,
                kind: DiagKind::PayloadTooLarge,
                span: Span { lo: 0, hi: 0 },
            },
        );
    }
    proof {
        assert(pool@.len() <= LIMIT32);
        assert forall|j: int| 0 <= j < pool@.len() implies (#[trigger] pool@[j])@.len()
            <= LIMIT32 by {
            assert(names_view(pool@)[j] == pool@[j]@);
            if pool@[j]@.len() > LIMIT32 {
                assert(0 <= j < names_view(pool@).len() && (#[trigger] names_view(pool@)[j]).len()
                    > LIMIT32);
            }
        }
    }
    let ps = build_pool_section(&pool);
    let total = match sum_children(&cnts, &doc.roots, doc.arena.len(), Ghost(av)) {
        Some(t) => t,
        None => {
            return Err(
                Diagnostic {
                    stage: Stage::Encode,
                    kind: DiagKind::PayloadTooLarge,
                    span: Span { lo: 0, hi: 0 },
                },
            );
        },
    };
    let rl = recs_lists(&doc.arena, &cnts, &pool);
    let mut tb: Vec<u8> = Vec::new();
    push_le32(&mut tb, total as u32);
    append_recs(&mut tb, &rl, &doc.roots, doc.arena.len(), Ghost(av), Ghost(names_view(pool@)));
    proof {
        assert(tb@ =~= table_section(doc_trees(doc@), names_view(pool@)));
    }
    if ps.len() as u64 > max_blob as u64 {
        return Err(
            Diagnostic {
                stage: Stage::Encode,
                kind: DiagKind::PayloadTooLarge,
                span: Span { lo: 0, hi: 0 },
            },
        );
    }
    if tb.len() as u64 > max_blob as u64 {
        return Err(
            Diagnostic {
                stage: Stage::Encode,
                kind: DiagKind::PayloadTooLarge,
                span: Span { lo: 0, hi: 0 },
            },
        );
    }
    let total_size: u64 = 24 + ps.len() as u64 + tb.len() as u64;
    if total_size > max_blob as u64 {
        return Err(
            Diagnostic {
                stage: Stage::Encode,
                kind: DiagKind::PayloadTooLarge,
                span: Span { lo: 0, hi: 0 },
            },
        );
    }
    proof {
        assert(!cnt_bad(doc@)) by {
            if exists|i: int|
                0 <= i < doc@.arena.len() && tree_cnt(tree_of(doc@.arena, i)) > LIMIT32 {
                let i = choose|i: int|
                    0 <= i < doc@.arena.len() && tree_cnt(tree_of(doc@.arena, i)) > LIMIT32;
                assert(cnts@[i] as nat == tree_cnt(tree_of(av, i)));
            }
        }
        assert(!pool_bad(doc@));
        assert(!size_bad(doc@, max_blob));
    }
    let mut body: Vec<u8> = Vec::new();
    push_all(&mut body, &ps);
    push_all(&mut body, &tb);
    let h = fnv_exec(&body);
    let mut out: Vec<u8> = Vec::new();
    out.push(70);
    out.push(73);
    out.push(82);
    out.push(49);
    proof {
        assert(out@ =~= seq![70u8, 73u8, 82u8, 49u8]);
    }
    push_le16(&mut out, 1);
    push_le16(&mut out, 0);
    push_le32(&mut out, 24);
    let toff = (24 + ps.len() as u64) as u32;
    push_le32(&mut out, toff);
    push_le64(&mut out, h);
    push_all(&mut out, &body);
    proof {
        assert(toff as nat == 24 + pool_section(names_view(pool@)).len());
        assert(out@ =~= blob_bytes(doc_trees(doc@)));
    }
    Ok(Blob { bytes: out })
}

} // verus!
