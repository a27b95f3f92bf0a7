use vstd::prelude::*;

verus! {

/// A node of a Huffman code tree held in an arena. The root is index 0, so
/// 0 also marks a missing child.
#[derive(Debug, Clone, Copy, PartialEq, Eq, Structural)]
pub struct Node {
    pub sym: Option<i16>,
    pub left: usize,
    pub right: usize,
}

/// A fresh node: no symbol, no children.
pub open spec fn empty_node() -> Node {
    Node { sym: None, left: 0, right: 0 }
}

/// Every child index of the arena lies inside it.
pub open spec fn tree_wf(t: Seq<Node>) -> bool {
    &&& t.len() >= 1
    &&& forall|n: int| 0 <= n < t.len() ==> (#[trigger] t[n]).left < t.len() && t[n].right < t.len()
}

/// `(length, symbol)` pairs in canonical order: by length, then symbol.
pub open spec fn pair_le(a: (u8, i16), b: (u8, i16)) -> bool {
    a.0 < b.0 || (a.0 == b.0 && a.1 <= b.1)
}

pub open spec fn pairs_sorted(s: Seq<(u8, i16)>) -> bool {
    forall|i: int, j: int| 0 <= i < j < s.len() ==> pair_le(#[trigger] s[i], #[trigger] s[j])
}

/// The `(length, symbol)` pairs of parallel symbol and length tables.
pub open spec fn table_pairs(symbols: Seq<i16>, lengths: Seq<u8>) -> Seq<(u8, i16)> {
    Seq::new(symbols.len(), |i: int| (lengths[i], symbols[i]))
}

/// A table that the tree can be built from: parallel, non-empty, and no code
/// longer than 32 bits.
pub open spec fn table_ok(symbols: Seq<i16>, lengths: Seq<u8>) -> bool {
    &&& symbols.len() == lengths.len()
    &&& symbols.len() > 0
    &&& forall|i: int| 0 <= i < lengths.len() ==> #[trigger] lengths[i] <= 32
}

/// `c` shifted left by `d` bits within 32 bits.
pub open spec fn shl32(c: nat, d: nat) -> nat
    decreases d,
{
    if d == 0 {
        c % 0x1_0000_0000
    } else {
        shl32((c * 2) % 0x1_0000_0000, (d - 1) as nat)
    }
}

/// The canonical code of the `k`-th pair of a sorted table: 0 for the first,
/// then one more than the previous code, shifted left by the growth in
/// length (within 32 bits).
pub open spec fn code_at(s: Seq<(u8, i16)>, k: nat) -> nat
    decreases k,
{
    if k == 0 {
        0
    } else {
        shl32(code_at(s, (k - 1) as nat) + 1, (s[k as int].0 - s[k - 1].0) as nat)
    }
}

/// Bit `i` of `code`.
pub open spec fn code_bit(code: nat, i: nat) -> bool {
    (code as u32 >> i as u32) & 1u32 == 1u32
}

/// The arena after walking the low `i` bits of `code` (highest first) from
/// node `n`, adding the nodes that are missing, and marking the last one with
/// `sym`.
pub open spec fn insert_code(t: Seq<Node>, n: nat, code: nat, i: nat, sym: i16) -> Seq<Node>
    decreases i,
{
    if i == 0 || n >= t.len() {
        t.update(n as int, Node { sym: Some(sym), ..t[n as int] })
    } else {
        let bit = code_bit(code, (i - 1) as nat);
        let child = if bit {
            t[n as int].right
        } else {
            t[n as int].left
        };
        if child == 0 {
            let m = t.len();
            let linked = if bit {
                Node { right: m as usize, ..t[n as int] }
            } else {
                Node { left: m as usize, ..t[n as int] }
            };
            insert_code(t.update(n as int, linked).push(empty_node()), m, code, (i - 1) as nat, sym)
        } else {
            insert_code(t, child as nat, code, (i - 1) as nat, sym)
        }
    }
}

/// The tree of the first `k` pairs of a sorted table.
pub open spec fn tree_of(s: Seq<(u8, i16)>, k: nat) -> Seq<Node>
    decreases k,
{
    if k == 0 {
        seq![empty_node()]
    } else {
        let p = s[k - 1];
        insert_code(tree_of(s, (k - 1) as nat), 0, code_at(s, (k - 1) as nat), p.0 as nat, p.1)
    }
}

/// Bit `j` of a payload read least significant bit first within each byte.
pub open spec fn payload_bit(p: Seq<u8>, j: int) -> bool {
    (p[j / 8] as int / pow2_8(j % 8)) % 2 == 1
}

/// `2^k` for `k < 8`.
pub open spec fn pow2_8(k: int) -> int {
    if k <= 0 {
        1
    } else if k == 1 {
        2
    } else if k == 2 {
        4
    } else if k == 3 {
        8
    } else if k == 4 {
        16
    } else if k == 5 {
        32
    } else if k == 6 {
        64
    } else if k == 7 {
        128
    } else {
        256
    }
}

/// Decoding from bit `j` at node `n`, with `out` emitted so far: each bit
/// moves to a child (0 left, 1 right); reaching a node with a symbol emits it
/// and returns to the root. `None` where a child is missing or the bits run
/// out before `count` symbols.
pub open spec fn walk(
    t: Seq<Node>,
    p: Seq<u8>,
    j: nat,
    n: nat,
    out: Seq<i16>,
    count: nat,
) -> Option<Seq<i16>>
    decreases p.len() * 8 - j,
{
    if out.len() >= count {
        Some(out)
    } else if j >= p.len() * 8 || n >= t.len() {
        None
    } else {
        let child = if payload_bit(p, j as int) {
            t[n as int].right
        } else {
            t[n as int].left
        };
        if child == 0 || child >= t.len() {
            None
        } else {
            match t[child as int].sym {
                Some(s) => walk(t, p, j + 1, 0, out.push(s), count),
                None => walk(t, p, j + 1, child as nat, out, count),
            }
        }
    }
}

/// A walk that ends with symbols ends with exactly `count` of them.
pub proof fn lemma_walk_len(t: Seq<Node>, p: Seq<u8>, j: nat, n: nat, out: Seq<i16>, count: nat)
    requires
        out.len() <= count,
        walk(t, p, j, n, out, count) is Some,
    ensures
        walk(t, p, j, n, out, count)->0.len() == count,
    decreases p.len() * 8 - j,
{
    if out.len() < count && j < p.len() * 8 && n < t.len() {
        let child = if payload_bit(p, j as int) {
            t[n as int].right
        } else {
            t[n as int].left
        };
        if child != 0 && child < t.len() {
            match t[child as int].sym {
                Some(s) => lemma_walk_len(t, p, j + 1, 0, out.push(s), count),
                None => lemma_walk_len(t, p, j + 1, child as nat, out, count),
            }
        }
    }
}

/// Relies on `slice::sort_unstable`: afterwards the pairs are in ascending
/// order (tuples of integers compare lexicographically) and are the same
/// pairs as before.
#[verifier::external_body]
fn sort_pairs(v: &mut Vec<(u8, i16)>)
    ensures
        pairs_sorted(final(v)@),
        final(v)@.to_multiset() == old(v)@.to_multiset(),
{
    v.sort_unstable();
}

fn insert(tree: &mut Vec<Node>, code: u32, len: u8, sym: i16)
    requires
        tree_wf(old(tree)@),
        len <= 32,
    ensures
        tree_wf(final(tree)@),
        final(tree)@ == insert_code(old(tree)@, 0, code as nat, len as nat, sym),
{
    let mut node: usize = 0;
    let mut i: u8 = len;
    while i > 0
        invariant
            tree_wf(tree@),
            node < tree@.len(),
            i <= len <= 32,
            insert_code(tree@, node as nat, code as nat, i as nat, sym) == insert_code(
                old(tree)@,
                0,
                code as nat,
                len as nat,
                sym,
            ),
        decreases i,
    {
        let bit = (code >> ((i - 1) as u32)) & 1 == 1;
        assert(bit == code_bit(code as nat, (i - 1) as nat));
        let cur = tree[node];
        let child = if bit {
            cur.right
        } else {
            cur.left
        };
        if child == 0 {
            let m = tree.len();
            let linked = if bit {
                Node { sym: cur.sym, left: cur.left, right: m }
            } else {
                Node { sym: cur.sym, left: m, right: cur.right }
            };
            tree.set(node, linked);
            tree.push(Node { sym: None, left: 0, right: 0 });
            node = m;
        } else {
            node = child;
        }
        i = i - 1;
    }
    let cur = tree[node];
    tree.set(node, Node { sym: Some(sym), left: cur.left, right: cur.right });
}

/// Builds the canonical code tree of a symbol table: the `(length, symbol)`
/// pairs in ascending order, the first code 0, each next code one more than
/// the previous shifted left by the growth in length, and each code inserted
/// highest bit first. Fails where the tables differ in length, are empty, or
/// hold a length over 32 bits.
pub fn build_tree(symbols: &[i16], lengths: &[u8]) -> (r: Result<Vec<Node>, ()>)
    ensures
        !table_ok(symbols@, lengths@) ==> r is Err,
        table_ok(symbols@, lengths@) ==> r is Ok && tree_wf(r->Ok_0@) && exists|s: Seq<(u8, i16)>|
            pairs_sorted(s) && s.to_multiset() == table_pairs(symbols@, lengths@).to_multiset()
                && r->Ok_0@ == tree_of(s, s.len()),
{
    if symbols.len() != lengths.len() {
        return Err(());
    }
    let mut pairs: Vec<(u8, i16)> = Vec::new();
    let mut i: usize = 0;
    while i < symbols.len()
        invariant
            symbols@.len() == lengths@.len(),
            i <= symbols@.len(),
            pairs@ == table_pairs(symbols@, lengths@).take(i as int),
            forall|k: int| 0 <= k < i ==> #[trigger] lengths@[k] <= 32,
        decreases symbols@.len() - i,
    {
        if lengths[i] > 32 {
            return Err(());
        }
        pairs.push((lengths[i], symbols[i]));
        i = i + 1;
        assert(pairs@ =~= table_pairs(symbols@, lengths@).take(i as int));
    }
    if pairs.len() == 0 {
        return Err(());
    }
    assert(pairs@ =~= table_pairs(symbols@, lengths@));
    let ghost table = pairs@;
    sort_pairs(&mut pairs);
    proof {
        pairs@.to_multiset_ensures();
        table.to_multiset_ensures();
        assert forall|k: int| 0 <= k < pairs@.len() implies (#[trigger] pairs@[k]).0 <= 32 by {
            assert(pairs@.contains(pairs@[k]));
            assert(table.to_multiset().count(pairs@[k]) > 0);
            let q = choose|q: int| 0 <= q < table.len() && table[q] == pairs@[k];
            assert(table[q].0 == lengths@[q]);
        }
        assert(pairs@.len() == table.len()) by {
            assert(pairs@.to_multiset().len() == table.to_multiset().len());
        }
    }
    let ghost s = pairs@;
    let mut tree: Vec<Node> = Vec::new();
    tree.push(Node { sym: None, left: 0, right: 0 });
    let mut code: u64 = 0;
    let mut k: usize = 0;
    proof {
        assert(tree@ =~= tree_of(s, 0));
    }
    while k < pairs.len()
        invariant
            pairs@ == s,
            s.len() >= 1,
            pairs_sorted(s),
            forall|q: int| 0 <= q < s.len() ==> (#[trigger] s[q]).0 <= 32,
            k <= s.len(),
            tree_wf(tree@),
            tree@ == tree_of(s, k as nat),
            k > 0 ==> code == code_at(s, (k - 1) as nat),
            code < 0x1_0000_0000,
        decreases s.len() - k,
    {
        let (len, sym) = pairs[k];
        if k > 0 {
            let prev_len = pairs[k - 1].0;
            assert(pair_le(s[k - 1], s[k as int]));
            let d = len - prev_len;
            let mut c: u64 = code + 1;
            let mut j: u8 = 0;
            while j < d
                invariant
                    j <= d,
                    c <= 0x1_0000_0000,
                    shl32(c as nat, (d - j) as nat) == shl32(code as nat + 1, d as nat),
                decreases d - j,
            {
                c = (c * 2) % 0x1_0000_0000;
                j = j + 1;
            }
            code = c % 0x1_0000_0000;
            assert(code == code_at(s, k as nat));
        } else {
            code = 0;
            assert(code == code_at(s, 0));
        }
        insert(&mut tree, code as u32, len, sym);
        k = k + 1;
    }
    Ok(tree)
}

proof fn lemma_shift_bit(v: u8, k: int)
    requires
        0 <= k < 8,
    ensures
        (v as int / pow2_8(k)) / 2 == v as int / pow2_8(k + 1),
{
    assert(pow2_8(k) * 2 == pow2_8(k + 1));
    vstd::arithmetic::div_mod::lemma_div_denominator(v as int, pow2_8(k), 2);
}

/// Decodes `count` symbols (none for a count of 0) from a payload read
/// least significant bit first within each byte, walking the canonical tree of the table (see
/// [`build_tree`]) from the root for each symbol. Fails where the table is
/// unusable, a walk reaches a missing child, or the payload ends first.
pub fn decode_huff_i16(payload: &[u8], count: usize, symbols: &[i16], lengths: &[u8]) -> (r: Result<
    Vec<i16>,
    (),
>)
    ensures
        !table_ok(symbols@, lengths@) ==> r is Err,
        table_ok(symbols@, lengths@) ==> exists|s: Seq<(u8, i16)>|
            pairs_sorted(s) && s.to_multiset() == table_pairs(symbols@, lengths@).to_multiset()
                && match walk(tree_of(s, s.len()), payload@, 0, 0, seq![], count as nat) {
                Some(v) => r is Ok && r->Ok_0@ == v,
                None => r is Err,
            },
{
    let tree = match build_tree(symbols, lengths) {
        Ok(t) => t,
        Err(()) => {
            return Err(());
        },
    };
    assert(table_ok(symbols@, lengths@));
    let ghost s = choose|s: Seq<(u8, i16)>|
        pairs_sorted(s) && s.to_multiset() == table_pairs(symbols@, lengths@).to_multiset()
            && tree@ == tree_of(s, s.len());
    let ghost t = tree@;
    let ghost full = walk(t, payload@, 0, 0, seq![], count as nat);
    let mut out: Vec<i16> = Vec::new();
    if count == 0 {
        return Ok(out);
    }
    let mut node: usize = 0;
    let mut bi: usize = 0;
    while bi < payload.len()
        invariant
            table_ok(symbols@, lengths@),
            pairs_sorted(s) && s.to_multiset() == table_pairs(symbols@, lengths@).to_multiset()
                && t == tree_of(s, s.len()),
            full == walk(t, payload@, 0, 0, seq![], count as nat),
            tree@ == t,
            tree_wf(t),
            node < t.len(),
            out@.len() < count,
            bi <= payload@.len(),
            walk(t, payload@, (bi * 8) as nat, node as nat, out@, count as nat) == full,
        decreases payload@.len() - bi,
    {
        let mut b: u8 = payload[bi];
        let mut k: usize = 0;
        while k < 8
            invariant
                table_ok(symbols@, lengths@),
                pairs_sorted(s) && s.to_multiset() == table_pairs(symbols@, lengths@).to_multiset()
                    && t == tree_of(s, s.len()),
                full == walk(t, payload@, 0, 0, seq![], count as nat),
                tree@ == t,
                tree_wf(t),
                node < t.len(),
                out@.len() < count,
                bi < payload@.len(),
                k <= 8,
                b as int == payload@[bi as int] as int / pow2_8(k as int),
                walk(t, payload@, (bi * 8 + k) as nat, node as nat, out@, count as nat) == full,
            decreases 8 - k,
        {
            let bit = b % 2 == 1;
            proof {
                let j = bi * 8 + k;
                assert(j < payload@.len() * 8) by (nonlinear_arith)
                    requires
                        j == bi * 8 + k,
                        bi < payload@.len(),
                        k < 8,
                ;
                vstd::arithmetic::div_mod::lemma_fundamental_div_mod_converse(j as int, 8, bi as int, k as int);
                assert(bit == payload_bit(payload@, j as int));
                lemma_shift_bit(payload@[bi as int], k as int);
            }
            b = b / 2;
            let child = if bit {
                tree[node].right
            } else {
                tree[node].left
            };
            if child == 0 {
                return Err(());
            }
            match tree[child].sym {
                Some(sy) => {
                    out.push(sy);
                    if out.len() == count {
                        assert(walk(t, payload@, (bi * 8 + k + 1) as nat, 0, out@, count as nat) == Some(out@));
                        return Ok(out);
                    }
                    node = 0;
                },
                None => {
                    node = child;
                },
            }
            k = k + 1;
        }
        bi = bi + 1;
    }
    assert(full is None);
    Err(())
}

} // verus!
