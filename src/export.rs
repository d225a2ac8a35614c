//! Text export of graphs in the dot language: a header, one statement per
//! node, one statement per edge entry in ascending (source, target) order,
//! and a footer.
use vstd::prelude::*;
use vstd::relations::{is_minimal, total_ordering};
use vstd::string::StringSliceAdditionalSpecFns;
use vstd::arithmetic::div_mod::lemma_small_mod;

verus! {

/// The UTF-8 bytes of a string.
pub open spec fn text(s: &str) -> Seq<u8> {
    s.spec_bytes()
}

pub open spec fn digit(d: nat) -> u8 {
    if d < 10 {
        (48 + d) as u8
    } else {
        (87 + d) as u8
    }
}

/// `n` written in base `b`, most significant digit first, without leading zeros.
pub open spec fn digits(n: nat, b: nat) -> Seq<u8>
    recommends
        2 <= b <= 16,
    decreases n,
    via digits_decreases
{
    if n < b || b < 2 {
        seq![digit(n)]
    } else {
        digits(n / b, b).push(digit(n % b))
    }
}

#[via_fn]
proof fn digits_decreases(n: nat, b: nat) {
    if !(n < b || b < 2) {
        assert(n / b < n) by (nonlinear_arith)
            requires
                n >= b,
                b >= 2,
        ;
    }
}

/// Ascending order of edge keys: by source, then by target.
pub open spec fn key_order() -> spec_fn((usize, usize), (usize, usize)) -> bool {
    |a: (usize, usize), b: (usize, usize)| a.0 < b.0 || (a.0 == b.0 && a.1 <= b.1)
}

pub open spec fn key_lt(a: (usize, usize), b: (usize, usize)) -> bool {
    a.0 < b.0 || (a.0 == b.0 && a.1 < b.1)
}

pub proof fn lemma_key_order_total()
    ensures
        total_ordering(key_order()),
{
    reveal(vstd::relations::reflexive);
    reveal(vstd::relations::antisymmetric);
    reveal(vstd::relations::transitive);
    reveal(vstd::relations::strongly_connected);
}

/// The attribute text that an edge entry's statement carries.
pub trait EdgeStyle {
    spec fn style_text(&self) -> Seq<u8>;

    fn write_style(&self, out: &mut Vec<u8>)
        ensures
            final(out)@ == old(out)@ + self.style_text(),
    ;
}

/// Edge keys mapped to their attribute text.
pub open spec fn styled_map<T: EdgeStyle>(s: Seq<((usize, usize), T)>) -> Map<(usize, usize), Seq<u8>>
    decreases s.len(),
{
    if s.len() == 0 {
        Map::empty()
    } else {
        styled_map(s.drop_last()).insert(s.last().0, s.last().1.style_text())
    }
}

pub open spec fn keys_distinct<T>(s: Seq<((usize, usize), T)>) -> bool {
    forall|i: int, j: int|
        0 <= i < s.len() && 0 <= j < s.len() && i != j ==> #[trigger] s[i].0 != #[trigger] s[j].0
}

/// The statement of the edge entry from `k.0` to `k.1`.
pub open spec fn edge_line(k: (usize, usize), style: Seq<u8>) -> Seq<u8> {
    text("b") + digits(k.0 as nat, 10) + text(" -> b") + digits(k.1 as nat, 10) + text(" [")
        + style + text("]\n")
}

/// The edge statements of `m`, smallest key first.
pub open spec fn edges_text(m: Map<(usize, usize), Seq<u8>>) -> Seq<u8>
    decreases m.dom().len(),
    when m.dom().finite()
    via edges_text_decreases
{
    if m.dom().len() == 0 {
        seq![]
    } else {
        let k = m.dom().find_unique_minimal(key_order());
        edge_line(k, m[k]) + edges_text(m.remove(k))
    }
}

#[via_fn]
proof fn edges_text_decreases(m: Map<(usize, usize), Seq<u8>>) {
    if m.dom().len() != 0 {
        lemma_key_order_total();
        m.dom().find_unique_minimal_ensures(key_order());
        let k = m.dom().find_unique_minimal(key_order());
        assert(m.remove(k).dom() =~= m.dom().remove(k));
    }
}

/// The document's preamble.
pub open spec fn header_text(title: Seq<u8>, fontsize: nat) -> Seq<u8> {
    text("digraph Flow {\n") + text("graph [label=\"") + title + text(
        "\", labelloc=\"t\", fontsize=",
    ) + digits(fontsize, 10) + text(", ") + text("fontname=\"Source Code Pro\"]\n") + text(
        "node [fontname=\"Source Code Pro\"]\n",
    ) + text("edge [fontname=\"Source Code Pro\"]\n")
}

pub open spec fn footer_text() -> Seq<u8> {
    text("}\n")
}

pub proof fn lemma_styled_map<T: EdgeStyle>(s: Seq<((usize, usize), T)>)
    requires
        keys_distinct(s),
    ensures
        styled_map(s).dom().finite(),
        forall|i: int| 0 <= i < s.len() ==> #[trigger] styled_map(s).contains_key(s[i].0)
            && styled_map(s)[s[i].0] == s[i].1.style_text(),
        forall|k: (usize, usize)| #[trigger] styled_map(s).contains_key(k) ==> exists|i: int|
            0 <= i < s.len() && #[trigger] s[i].0 == k,
    decreases s.len(),
{
    if s.len() > 0 {
        let p = s.drop_last();
        assert(keys_distinct(p)) by {
            assert forall|i: int, j: int|
                0 <= i < p.len() && 0 <= j < p.len() && i != j implies #[trigger] p[i].0
                != #[trigger] p[j].0 by {
                assert(s[i].0 != s[j].0);
            }
        }
        lemma_styled_map(p);
        assert forall|i: int| 0 <= i < s.len() implies #[trigger] styled_map(s).contains_key(s[i].0)
            && styled_map(s)[s[i].0] == s[i].1.style_text() by {
            if i < s.len() - 1 {
                assert(p[i] == s[i]);
                assert(s[i].0 != s[s.len() - 1].0);
            }
        }
        assert forall|k: (usize, usize)| #[trigger] styled_map(s).contains_key(k) implies exists|i: int|
            0 <= i < s.len() && #[trigger] s[i].0 == k by {
            if k != s.last().0 {
                let i = choose|i: int| 0 <= i < p.len() && #[trigger] p[i].0 == k;
                assert(s[i].0 == k);
            } else {
                assert(s[s.len() - 1].0 == k);
            }
        }
    }
}

/// Appends `b` to `out`.
pub fn push_bytes(out: &mut Vec<u8>, b: &[u8])
    ensures
        final(out)@ == old(out)@ + b@,
{
    let mut i: usize = 0;
    while i < b.len()
        invariant
            i <= b@.len(),
            out@ == old(out)@ + b@.subrange(0, i as int),
        decreases b@.len() - i,
    {
        out.push(b[i]);
        proof {
            assert(b@.subrange(0, i + 1) =~= b@.subrange(0, i as int).push(b@[i as int]));
        }
        i = i + 1;
    }
    proof {
        assert(b@.subrange(0, i as int) =~= b@);
    }
}

/// Appends `s` to `out`.
pub fn push_text(out: &mut Vec<u8>, s: &str)
    ensures
        final(out)@ == old(out)@ + text(s),
{
    push_bytes(out, s.as_bytes());
}

/// Appends `n` written in base `base` to `out`.
pub fn push_number(out: &mut Vec<u8>, n: u64, base: u64)
    requires
        2 <= base <= 16,
    ensures
        final(out)@ == old(out)@ + digits(n as nat, base as nat),
    decreases n,
{
    if n >= base {
        assert(n / base < n) by (nonlinear_arith)
            requires
                n >= base,
                base >= 2,
        ;
        push_number(out, n / base, base);
    }
    let d = n % base;
    let c: u8 = if d < 10 {
        48 + d as u8
    } else {
        87 + d as u8
    };
    out.push(c);
    proof {
        if n < base {
            lemma_small_mod(n as nat, base as nat);
        }
    }
}

/// Write the preamble of the document.
pub fn write_header(out: &mut Vec<u8>, title: &[u8], fontsize: u32)
    ensures
        final(out)@ == old(out)@ + header_text(title@, fontsize as nat),
{
    push_text(out, "digraph Flow {\n");
    push_text(out, "graph [label=\"");
    push_bytes(out, title);
    push_text(out, "\", labelloc=\"t\", fontsize=");
    push_number(out, fontsize as u64, 10);
    push_text(out, ", ");
    push_text(out, "fontname=\"Source Code Pro\"]\n");
    push_text(out, "node [fontname=\"Source Code Pro\"]\n");
    push_text(out, "edge [fontname=\"Source Code Pro\"]\n");
    proof {
        assert(final(out)@ =~= old(out)@ + header_text(title@, fontsize as nat));
    }
}

fn write_edge_line<T: EdgeStyle>(out: &mut Vec<u8>, k: (usize, usize), style: &T)
    ensures
        final(out)@ == old(out)@ + edge_line(k, style.style_text()),
{
    push_text(out, "b");
    push_number(out, k.0 as u64, 10);
    push_text(out, " -> b");
    push_number(out, k.1 as u64, 10);
    push_text(out, " [");
    style.write_style(out);
    push_text(out, "]\n");
    proof {
        assert(final(out)@ =~= old(out)@ + edge_line(k, style.style_text()));
    }
}

/// Write one statement per edge entry, in ascending order of (source,
/// target) whatever the order of `edges`.
pub fn write_edges<T: EdgeStyle>(out: &mut Vec<u8>, edges: &Vec<((usize, usize), T)>)
    requires
        keys_distinct(edges@),
    ensures
        final(out)@ == old(out)@ + edges_text(styled_map(edges@)),
{
    let ghost m = styled_map(edges@);
    proof {
        lemma_styled_map(edges@);
        lemma_key_order_total();
        assert forall|i: int| 0 <= i < edges@.len() implies #[trigger] m.contains_key(edges@[i].0)
            && m[edges@[i].0] == edges@[i].1.style_text() by {
            assert(styled_map(edges@).contains_key(edges@[i].0));
        }
    }
    let ghost mut rem = m;
    let mut started = false;
    let mut last: (usize, usize) = (0, 0);
    loop
        invariant
            keys_distinct(edges@),
            m == styled_map(edges@),
            m.dom().finite(),
            forall|i: int| 0 <= i < edges@.len() ==> #[trigger] m.contains_key(edges@[i].0)
                && m[edges@[i].0] == edges@[i].1.style_text(),
            forall|k: (usize, usize)| #[trigger] m.contains_key(k) ==> exists|i: int|
                0 <= i < edges@.len() && #[trigger] edges@[i].0 == k,
            total_ordering(key_order()),
            forall|k: (usize, usize)| #[trigger] rem.contains_key(k) <==> (m.contains_key(k) && (
            started ==> key_lt(last, k))),
            forall|k: (usize, usize)| #[trigger] rem.contains_key(k) ==> rem[k] == m[k],
            rem.dom().finite(),
            out@ + edges_text(rem) == old(out)@ + edges_text(m),
        ensures
            out@ == old(out)@ + edges_text(m),
        decreases rem.dom().len(),
    {
        let mut best: Option<usize> = None;
        let mut i: usize = 0;
        while i < edges.len()
            invariant
                i <= edges@.len(),
                best matches Some(b) ==> b < edges@.len() && (!started || key_lt(last, edges@[b as int].0)),
                forall|q: int| 0 <= q < i && (!started || key_lt(last, #[trigger] edges@[q].0)) ==> (
                best matches Some(b) && key_order()(edges@[b as int].0, edges@[q].0)),
            decreases edges@.len() - i,
        {
            let k = edges[i].0;
            if !started || last.0 < k.0 || (last.0 == k.0 && last.1 < k.1) {
                match best {
                    None => {
                        best = Some(i);
                    },
                    Some(b) => {
                        let kb = edges[b].0;
                        if k.0 < kb.0 || (k.0 == kb.0 && k.1 < kb.1) {
                            best = Some(i);
                        }
                    },
                }
            }
            i = i + 1;
        }
        match best {
            None => {
                proof {
                    assert(rem.dom() =~= Set::empty()) by {
                        assert forall|k: (usize, usize)| !rem.contains_key(k) by {
                            if rem.contains_key(k) {
                                let q = choose|q: int| 0 <= q < edges@.len() && #[trigger] edges@[q].0 == k;
                            }
                        }
                    }
                    assert(rem.dom().len() == 0);
                    assert(edges_text(rem) == Seq::<u8>::empty());
                    assert(out@ + edges_text(rem) =~= out@);
                }
                break;
            },
            Some(b) => {
                let k = edges[b].0;
                proof {
                    assert(rem.contains_key(k));
                    assert(is_minimal(key_order(), k, rem.dom())) by {
                        assert forall|x: (usize, usize)| rem.dom().contains(x) && #[trigger] key_order()(x, k)
                            implies #[trigger] key_order()(k, x) by {
                            let q = choose|q: int| 0 <= q < edges@.len() && #[trigger] edges@[q].0 == x;
                            assert(key_order()(k, edges@[q].0));
                        }
                    }
                    rem.dom().find_unique_minimal_ensures(key_order());
                    assert(rem.dom().find_unique_minimal(key_order()) == k);
                    assert(edges_text(rem) == edge_line(k, rem[k]) + edges_text(rem.remove(k)));
                }
                let ghost before = out@;
                write_edge_line(out, k, &edges[b].1);
                proof {
                    assert(out@ + edges_text(rem.remove(k)) =~= before + edges_text(rem));
                    assert(rem.remove(k).dom() =~= rem.dom().remove(k));
                    assert(rem.remove(k).dom().len() < rem.dom().len());
                    rem = rem.remove(k);
                }
                started = true;
                last = k;
            },
        }
    }
}

/// Write the closing of the document.
pub fn write_footer(out: &mut Vec<u8>)
    ensures
        final(out)@ == old(out)@ + footer_text(),
{
    push_text(out, "}\n");
}

} // verus!
