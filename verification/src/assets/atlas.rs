//! The shelf atlas packer: sprites sorted by height, width and id are laid
//! out left to right on shelves, shelves top to bottom, pages one after the
//! other; each page is sized to the next power of two of what it holds.

use vstd::prelude::*;

verus! {

/// Sprite dimensions to pack.
#[derive(Debug, Clone, Copy)]
pub struct PackInput<'a> {
    pub id: &'a str,
    pub width: u32,
    pub height: u32,
}

/// A packed sprite: its page and pixel rectangle.
#[derive(Debug, Clone)]
pub struct PackedSprite {
    pub id: String,
    pub page: u32,
    pub x: u32,
    pub y: u32,
    pub width: u32,
    pub height: u32,
}

/// Atlas page dimensions in pixels.
#[derive(Debug, Clone, Copy, PartialEq, Eq, Structural)]
pub struct AtlasPage {
    pub width: u32,
    pub height: u32,
}

/// The pages and the sprites, in input order.
#[derive(Debug, Clone)]
pub struct PackResult {
    pub pages: Vec<AtlasPage>,
    pub sprites: Vec<PackedSprite>,
}

/// Lexicographic order of texts, character by character.
pub open spec fn text_lt(a: Seq<char>, b: Seq<char>) -> bool
    decreases a.len(),
{
    if a.len() == 0 {
        b.len() > 0
    } else if b.len() == 0 {
        false
    } else if a[0] != b[0] {
        a[0] < b[0]
    } else {
        text_lt(a.drop_first(), b.drop_first())
    }
}

/// The text order is a strict total order.
pub proof fn lemma_text_lt(a: Seq<char>, b: Seq<char>, c: Seq<char>)
    ensures
        !text_lt(a, a),
        text_lt(a, b) ==> !text_lt(b, a),
        a != b ==> text_lt(a, b) || text_lt(b, a),
        text_lt(a, b) && text_lt(b, c) ==> text_lt(a, c),
    decreases a.len(),
{
    if a.len() > 0 && b.len() > 0 && c.len() > 0 {
        lemma_text_lt(a.drop_first(), b.drop_first(), c.drop_first());
    } else if a.len() > 0 && b.len() > 0 {
        lemma_text_lt(a.drop_first(), b.drop_first(), b.drop_first());
    } else if a.len() > 0 {
        lemma_text_lt(a.drop_first(), a.drop_first(), a.drop_first());
    }
    if a.len() > 0 && b.len() > 0 && a[0] == b[0] && a != b {
        assert(a.drop_first() != b.drop_first()) by {
            if a.drop_first() == b.drop_first() {
                assert(a =~= seq![a[0]] + a.drop_first());
                assert(b =~= seq![b[0]] + b.drop_first());
            }
        }
    }
    if a.len() == 0 && b.len() == 0 {
        assert(a =~= b);
    }
}

/// Whether `a` sorts before `b`: taller first, then wider, then by id.
pub open spec fn key_before(a: PackInput, b: PackInput) -> bool {
    ||| a.height > b.height
    ||| a.height == b.height && a.width > b.width
    ||| a.height == b.height && a.width == b.width && text_lt(a.id@, b.id@)
}

/// Whether input `i` is packed before input `j`: by key, then, keys equal,
/// in input order.
pub open spec fn packs_before(inputs: Seq<PackInput>, i: int, j: int) -> bool {
    ||| key_before(inputs[i], inputs[j])
    ||| !key_before(inputs[j], inputs[i]) && !key_before(inputs[i], inputs[j]) && i < j
}

/// Packing order is a strict total order on input positions.
pub proof fn lemma_packs_before(inputs: Seq<PackInput>, i: int, j: int, k: int)
    ensures
        !packs_before(inputs, i, i),
        i != j ==> packs_before(inputs, i, j) || packs_before(inputs, j, i),
        packs_before(inputs, i, j) ==> !packs_before(inputs, j, i),
        packs_before(inputs, i, j) && packs_before(inputs, j, k) ==> packs_before(inputs, i, k),
{
    lemma_text_lt(inputs[i].id@, inputs[j].id@, inputs[k].id@);
    lemma_text_lt(inputs[j].id@, inputs[i].id@, inputs[k].id@);
    lemma_text_lt(inputs[i].id@, inputs[k].id@, inputs[j].id@);
    lemma_text_lt(inputs[j].id@, inputs[k].id@, inputs[i].id@);
    lemma_text_lt(inputs[k].id@, inputs[i].id@, inputs[j].id@);
    lemma_text_lt(inputs[k].id@, inputs[j].id@, inputs[i].id@);
}

/// Whether text `a` sorts before text `b`.
pub fn str_lt(a: &str, b: &str) -> (r: bool)
    ensures
        r == text_lt(a@, b@),
{
    let n = a.unicode_len();
    let m = b.unicode_len();
    let mut i: usize = 0;
    assert(a@.skip(0) =~= a@);
    assert(b@.skip(0) =~= b@);
    while i < n && i < m
        invariant
            i <= n,
            i <= m,
            n == a@.len(),
            m == b@.len(),
            text_lt(a@, b@) == text_lt(a@.skip(i as int), b@.skip(i as int)),
        decreases n - i,
    {
        let x = a.get_char(i);
        let y = b.get_char(i);
        assert(a@.skip(i as int)[0] == x);
        assert(b@.skip(i as int)[0] == y);
        if x != y {
            return x < y;
        }
        assert(a@.skip(i as int).drop_first() =~= a@.skip(i + 1));
        assert(b@.skip(i as int).drop_first() =~= b@.skip(i + 1));
        i += 1;
    }
    i == n && i < m
}

/// `order` lists each of `0..n` once.
pub open spec fn is_permutation(order: Seq<int>, n: int) -> bool {
    &&& order.len() == n
    &&& order.no_duplicates()
    &&& forall|p: int| 0 <= p < n ==> 0 <= #[trigger] order[p] < n
}

/// `order` lists the inputs in packing order.
pub open spec fn is_pack_order(inputs: Seq<PackInput>, order: Seq<int>) -> bool {
    &&& is_permutation(order, inputs.len() as int)
    &&& forall|p: int, q: int| 0 <= p < q < order.len() ==> packs_before(inputs, #[trigger] order[p], #[trigger] order[q])
}

/// The position of the first input of `rest` in packing order.
fn first_in_order(inputs: &[PackInput], rest: &Vec<usize>) -> (r: usize)
    requires
        rest@.len() > 0,
        forall|p: int| 0 <= p < rest@.len() ==> #[trigger] rest@[p] < inputs@.len(),
    ensures
        r < rest@.len(),
        forall|p: int| 0 <= p < rest@.len() && p != r ==> packs_before(inputs@, rest@[r as int] as int, #[trigger] rest@[p] as int)
            || rest@[p] == rest@[r as int],
{
    let mut best: usize = 0;
    let mut j: usize = 1;
    while j < rest.len()
        invariant
            0 < j <= rest@.len(),
            best < j,
            forall|p: int| 0 <= p < rest@.len() ==> #[trigger] rest@[p] < inputs@.len(),
            forall|p: int| 0 <= p < j && p != best ==> packs_before(inputs@, rest@[best as int] as int, #[trigger] rest@[p] as int)
                || rest@[p] == rest@[best as int],
        decreases rest@.len() - j,
    {
        let a = inputs[rest[j]];
        let b = inputs[rest[best]];
        let id_first = str_lt(a.id, b.id);
        let key_first = a.height > b.height || (a.height == b.height && a.width > b.width)
            || (a.height == b.height && a.width == b.width && id_first);
        let key_after_check = b.height > a.height || (a.height == b.height && b.width > a.width)
            || (a.height == b.height && a.width == b.width && str_lt(b.id, a.id));
        let earlier = !key_first && !key_after_check && rest[j] < rest[best];
        proof {
            assert(key_first == key_before(inputs@[rest@[j as int] as int], inputs@[rest@[best as int] as int]));
            assert(key_after_check == key_before(inputs@[rest@[best as int] as int], inputs@[rest@[j as int] as int]));
        }
        if key_first || earlier {
            proof {
                let nb = rest@[j as int] as int;
                let ob = rest@[best as int] as int;
                assert(packs_before(inputs@, nb, ob));
                assert forall|p: int| 0 <= p < j + 1 && p != j implies packs_before(inputs@, nb, #[trigger] rest@[p] as int)
                    || rest@[p] == rest@[j as int] by {
                    let x = rest@[p] as int;
                    lemma_packs_before(inputs@, nb, ob, x);
                    if p == best {
                    } else if rest@[p] != rest@[best as int] {
                        assert(packs_before(inputs@, ob, x));
                    }
                }
            }
            best = j;
        } else {
            proof {
                let nb = rest@[j as int] as int;
                let ob = rest@[best as int] as int;
                lemma_packs_before(inputs@, nb, ob, nb);
                assert(nb != ob ==> packs_before(inputs@, ob, nb));
            }
        }
        j += 1;
    }
    best
}


/// The inputs' positions in packing order.
fn pack_order(inputs: &[PackInput]) -> (r: Vec<usize>)
    ensures
        is_pack_order(inputs@, r@.map_values(|x: usize| x as int)),
{
    let n = inputs.len();
    let mut rest: Vec<usize> = Vec::new();
    let mut i: usize = 0;
    while i < n
        invariant
            i <= n,
            n == inputs@.len(),
            rest@.len() == i,
            forall|p: int| 0 <= p < i ==> #[trigger] rest@[p] == p,
        decreases n - i,
    {
        rest.push(i);
        i += 1;
    }
    let mut order: Vec<usize> = Vec::new();
    while rest.len() > 0
        invariant
            n == inputs@.len(),
            order@.len() + rest@.len() == n,
            (order@ + rest@).no_duplicates(),
            forall|p: int| 0 <= p < (order@ + rest@).len() ==> #[trigger] (order@ + rest@)[p] < n,
            forall|p: int, q: int| 0 <= p < q < order@.len() ==> packs_before(inputs@, #[trigger] order@[p] as int, #[trigger] order@[q] as int),
            forall|p: int, q: int| 0 <= p < order@.len() && 0 <= q < rest@.len() ==> packs_before(inputs@, #[trigger] order@[p] as int, #[trigger] rest@[q] as int),
        decreases rest@.len(),
    {
        proof {
            assert forall|p: int| 0 <= p < rest@.len() implies #[trigger] rest@[p] < inputs@.len() by {
                assert((order@ + rest@)[order@.len() + p] == rest@[p]);
            }
        }
        let b = first_in_order(inputs, &rest);
        let ghost old_order = order@;
        let ghost old_rest = rest@;
        let c = rest.remove(b);
        order.push(c);
        proof {
            let all0 = old_order + old_rest;
            let all1 = order@ + rest@;
            assert forall|p: int| 0 <= p < old_rest.len() && p != b implies rest@.contains(#[trigger] old_rest[p]) by {
                if p < b {
                    assert(rest@[p] == old_rest[p]);
                } else {
                    assert(rest@[p - 1] == old_rest[p]);
                }
            }
            assert forall|q: int| 0 <= q < rest@.len() implies exists|p: int| 0 <= p < old_rest.len() && p != b && #[trigger] rest@[q] == old_rest[p] by {
                if q < b {
                    assert(rest@[q] == old_rest[q]);
                } else {
                    assert(rest@[q] == old_rest[q + 1]);
                }
            }
            assert(all0.no_duplicates());
            assert forall|x: int, y: int| 0 <= x < y < all1.len() implies all1[x] != all1[y] by {
                // Map each position of the new list to one of the old list.
                let fx = if x < old_order.len() { x } else if x == old_order.len() { old_order.len() + b } else {
                    let q = x - old_order.len() - 1;
                    if q < b { old_order.len() + q } else { old_order.len() + q + 1 }
                };
                let fy = if y < old_order.len() { y } else if y == old_order.len() { old_order.len() + b } else {
                    let q = y - old_order.len() - 1;
                    if q < b { old_order.len() + q } else { old_order.len() + q + 1 }
                };
                assert(all1[x] == all0[fx]);
                assert(all1[y] == all0[fy]);
                assert(fx != fy);
            }
            assert forall|p: int| 0 <= p < all1.len() implies #[trigger] all1[p] < n by {
                let f = if p < old_order.len() { p } else if p == old_order.len() { old_order.len() + b } else {
                    let q = p - old_order.len() - 1;
                    if q < b { old_order.len() + q } else { old_order.len() + q + 1 }
                };
                assert(all1[p] == all0[f]);
            }
            assert forall|p: int, q: int| 0 <= p < q < order@.len() implies packs_before(inputs@, #[trigger] order@[p] as int, #[trigger] order@[q] as int) by {
                if q == old_order.len() {
                    assert(order@[q] == old_rest[b as int]);
                } else {
                    assert(order@[p] == old_order[p]);
                    assert(order@[q] == old_order[q]);
                }
            }
            assert forall|p: int, q: int| 0 <= p < order@.len() && 0 <= q < rest@.len() implies packs_before(inputs@, #[trigger] order@[p] as int, #[trigger] rest@[q] as int) by {
                let k = if q < b { q } else { q + 1 };
                assert(rest@[q] == old_rest[k]);
                if p == old_order.len() {
                    assert(order@[p] == old_rest[b as int]);
                    assert(all0[old_order.len() + k] == old_rest[k]);
                    assert(all0[old_order.len() + b] == old_rest[b as int]);
                    assert(old_rest[k] != old_rest[b as int]);
                } else {
                    assert(order@[p] == old_order[p]);
                }
            }
        }
    }
    proof {
        let o = order@.map_values(|x: usize| x as int);
        assert(order@ + rest@ =~= order@);
        assert forall|x: int, y: int| 0 <= x < y < o.len() implies o[x] != o[y] by {
            assert(order@[x] != order@[y]);
        }
        assert forall|p: int| 0 <= p < o.len() implies 0 <= #[trigger] o[p] < inputs@.len() by {
            assert(order@[p] < n);
        }
        assert forall|p: int, q: int| 0 <= p < q < o.len() implies packs_before(inputs@, #[trigger] o[p], #[trigger] o[q]) by {
            assert(packs_before(inputs@, order@[p] as int, order@[q] as int));
        }
    }
    order
}


/// The smallest power of two at least `v` (one for zero).
pub open spec fn next_pow2(v: nat) -> nat
    decreases v,
{
    if v <= 1 {
        1
    } else {
        2 * next_pow2(((v + 1) / 2) as nat)
    }
}

/// The next power of two stays within any power of two at least `v`.
proof fn lemma_next_pow2_bound(v: nat, b: nat)
    requires
        v <= b,
        b == 0x8000_0000 || b == 0x4000_0000 || b == 0x2000_0000 || b == 0x1000_0000 || b == 0x800_0000
            || b == 0x400_0000 || b == 0x200_0000 || b == 0x100_0000 || b == 0x80_0000 || b == 0x40_0000
            || b == 0x20_0000 || b == 0x10_0000 || b == 0x8_0000 || b == 0x4_0000 || b == 0x2_0000
            || b == 0x1_0000 || b == 0x8000 || b == 0x4000 || b == 0x2000 || b == 0x1000 || b == 0x800
            || b == 0x400 || b == 0x200 || b == 0x100 || b == 0x80 || b == 0x40 || b == 0x20 || b == 0x10
            || b == 8 || b == 4 || b == 2 || b == 1,
    ensures
        1 <= next_pow2(v) <= b,
    decreases v,
{
    if v > 1 {
        lemma_next_pow2_bound(((v + 1) / 2) as nat, b / 2);
    }
}

/// The smallest power of two at least `v`.
pub(crate) fn next_power_of_two(v: u32) -> (r: u32)
    requires
        v <= 0x8000_0000,
    ensures
        r == next_pow2(v as nat),
        1 <= r <= 0x8000_0000,
    decreases v,
{
    proof {
        lemma_next_pow2_bound(v as nat, 0x8000_0000);
    }
    if v <= 1 {
        1
    } else {
        let half = next_power_of_two(((v as u64 + 1) / 2) as u32);
        2 * half
    }
}

/// A page side: the power of two at least the extent (at least one),
/// clamped to `max_dim`.
pub open spec fn page_dim(extent: u32, max_dim: u32) -> u32 {
    let p = next_pow2(if extent == 0 { 1 } else { extent as nat });
    if p <= max_dim { p as u32 } else { max_dim }
}

fn next_power_of_two_clamped(value: u32, max: u32) -> (r: u32)
    requires
        value <= 0x8000_0000,
    ensures
        r == page_dim(value, max),
{
    let v = if value == 0 { 1 } else { value };
    let pow = next_power_of_two(v);
    if pow <= max { pow } else { max }
}

/// Where the packer stands: the current page, the next free spot on the
/// current shelf, the shelf's height, how far the page is used, and
/// whether a page has been opened.
#[derive(Debug, Clone, Copy, PartialEq, Eq, Structural)]
pub struct ShelfCursor {
    pub page: u32,
    pub x: u32,
    pub y: u32,
    pub shelf_height: u32,
    pub extent_x: u32,
    pub extent_y: u32,
    pub open: bool,
}

/// A fresh page: the next one unless it is the first.
pub open spec fn opened(c: ShelfCursor, first: bool, pad: u32) -> ShelfCursor {
    ShelfCursor {
        page: if first { c.page } else { (c.page + 1) as u32 },
        x: pad,
        y: pad,
        shelf_height: 0,
        extent_x: 0,
        extent_y: 0,
        open: true,
    }
}

/// Place a `w` by `h` sprite: on the current shelf if it fits across, else
/// on a new shelf if it fits below, else on a new page (closing the current
/// one). Gives the new cursor, the closed pages and the sprite's page and
/// position.
pub open spec fn place(c: ShelfCursor, pages: Seq<AtlasPage>, w: u32, h: u32, pad: u32, max_dim: u32) -> (ShelfCursor, Seq<AtlasPage>, (u32, u32, u32)) {
    let c1 = if !c.open { opened(c, pages.len() == 0, pad) } else { c };
    let cw = w + pad;
    let ch = h + pad;
    let c2 = if c1.shelf_height == 0 { ShelfCursor { shelf_height: ch as u32, ..c1 } } else { c1 };
    let (c3, pages3) = if c2.x + cw > max_dim {
        let ny = c2.y + c2.shelf_height;
        if ny + ch > max_dim {
            (
                ShelfCursor { shelf_height: ch as u32, ..opened(c2, false, pad) },
                pages.push(AtlasPage { width: page_dim(c2.extent_x, max_dim), height: page_dim(c2.extent_y, max_dim) }),
            )
        } else {
            (ShelfCursor { y: ny as u32, x: pad, shelf_height: ch as u32, ..c2 }, pages)
        }
    } else {
        (c2, pages)
    };
    let nx = c3.x + cw;
    let used_y = c3.y + c3.shelf_height;
    let c4 = ShelfCursor {
        x: nx as u32,
        extent_x: if nx > c3.extent_x { nx as u32 } else { c3.extent_x },
        extent_y: if used_y > c3.extent_y { used_y as u32 } else { c3.extent_y },
        ..c3
    };
    (c4, pages3, (c3.page, c3.x, c3.y))
}

/// The packer after the first `k` inputs in `order`: cursor, closed pages,
/// and each placed sprite's page and position, in order.
pub open spec fn run(inputs: Seq<PackInput>, order: Seq<int>, k: int, pad: u32, max_dim: u32) -> (ShelfCursor, Seq<AtlasPage>, Seq<(u32, u32, u32)>)
    decreases k,
{
    if k <= 0 {
        (ShelfCursor { page: 0, x: pad, y: pad, shelf_height: 0, extent_x: 0, extent_y: 0, open: false }, Seq::empty(), Seq::empty())
    } else {
        let prev = run(inputs, order, k - 1, pad, max_dim);
        let input = inputs[order[k - 1]];
        let step = place(prev.0, prev.1, input.width, input.height, pad, max_dim);
        (step.0, step.1, prev.2.push(step.2))
    }
}

/// The largest width or height a sprite may have.
pub open spec fn max_usable(max_dim: u32, pad: u32) -> int {
    if max_dim >= 2 * pad { max_dim - 2 * pad } else { 0 }
}

/// The bound on every cursor value.
pub open spec fn cursor_bound(max_dim: u32, pad: u32) -> int {
    if max_dim >= 2 * pad { max_dim as int } else { 2 * pad }
}

/// Page sizes and paddings for which the packer's sums stay within `u32`:
/// with room for sprites, a position plus a padded sprite (at most twice
/// `max_dim` less the padding) fits, and so does the power of two above a
/// page's extent; without room, every sprite takes a page of its own whose
/// extent is twice the padding.
pub open spec fn pack_fits(max_dim: u32, pad: u32) -> bool {
    if max_dim >= 2 * pad {
        max_dim <= 0x8000_0000 && 2 * max_dim <= u32::MAX + pad
    } else {
        pad <= 0x4000_0000
    }
}

/// The cursor stays within the bound.
pub open spec fn cursor_ok(c: ShelfCursor, pages: Seq<AtlasPage>, max_dim: u32, pad: u32) -> bool {
    let m = cursor_bound(max_dim, pad);
    &&& c.x <= m
    &&& c.y + c.shelf_height <= m
    &&& c.extent_x <= m
    &&& c.extent_y <= m
    &&& c.page <= pages.len()
    &&& forall|i: int| 0 <= i < pages.len() ==> (#[trigger] pages[i]).width <= max_dim && pages[i].height <= max_dim
}

/// Pack the sprites: the pages in order and, for each input in input
/// order, its page and position. `inputs` listed in packing order are
/// placed one after the other; the last page is closed at the end.
pub open spec fn packed(inputs: Seq<PackInput>, order: Seq<int>, pad: u32, max_dim: u32, r: PackResult) -> bool {
    let n = inputs.len() as int;
    let done = run(inputs, order, n, pad, max_dim);
    &&& r.sprites@.len() == n
    &&& r.pages@ == (if n == 0 {
        Seq::<AtlasPage>::empty()
    } else {
        done.1.push(AtlasPage { width: page_dim(done.0.extent_x, max_dim), height: page_dim(done.0.extent_y, max_dim) })
    })
    &&& forall|p: int| 0 <= p < n ==> {
        let s = #[trigger] r.sprites@[order[p]];
        &&& s.id@ == inputs[order[p]].id@
        &&& s.width == inputs[order[p]].width
        &&& s.height == inputs[order[p]].height
        &&& (s.page, s.x, s.y) == done.2[p]
    }
}


/// Width of the `p`-th sprite in packing order.
pub open spec fn wid(inputs: Seq<PackInput>, order: Seq<int>, p: int) -> int {
    inputs[order[p]].width as int
}

/// Height of the `p`-th sprite in packing order.
pub open spec fn hgt(inputs: Seq<PackInput>, order: Seq<int>, p: int) -> int {
    inputs[order[p]].height as int
}

/// Two placed rectangles, each grown by the padding on its right and
/// bottom, do not overlap.
pub open spec fn apart(x1: int, y1: int, w1: int, h1: int, x2: int, y2: int, w2: int, h2: int, pad: int) -> bool {
    ||| x1 + w1 + pad <= x2
    ||| x2 + w2 + pad <= x1
    ||| y1 + h1 + pad <= y2
    ||| y2 + h2 + pad <= y1
}

/// What holds of the packer after the first `k` sprites: the sprites of
/// the open page lie on earlier shelves or to the left on the current one,
/// within the page's used extent; the sprites of closed pages lie within
/// their page; and no two sprites of a page overlap.
pub open spec fn packing_inv(inputs: Seq<PackInput>, order: Seq<int>, k: int, pad: u32, max_dim: u32) -> bool {
    let st = run(inputs, order, k, pad, max_dim);
    let c = st.0;
    let pages = st.1;
    let pl = st.2;
    &&& pl.len() == k
    &&& pages.len() <= k
    &&& (k == 0 ==> !c.open && c.page == 0 && pages.len() == 0)
    &&& (k > 0 ==> c.open && c.page == pages.len())
    &&& (k > 0 ==> c.y + c.shelf_height <= max_dim && c.x <= max_dim && c.extent_x <= max_dim && c.extent_y <= max_dim)
    &&& (k > 0 ==> pl[k - 1].0 == c.page && pl[k - 1].2 == c.y && hgt(inputs, order, k - 1) + pad <= c.shelf_height)
    &&& forall|p: int| 0 <= p < k ==> (#[trigger] pl[p]).0 <= c.page && pl[p].1 >= pad && pl[p].2 >= pad
    &&& (k > 0 ==> pl[0].0 == 0)
    &&& forall|p: int| 0 < p < k ==> (#[trigger] pl[p]).0 <= pl[p - 1].0 + 1
    &&& forall|p: int| 0 <= p < k && (#[trigger] pl[p]).0 == c.page ==> {
        ||| pl[p].2 + hgt(inputs, order, p) + pad <= c.y
        ||| pl[p].2 == c.y && pl[p].1 + wid(inputs, order, p) + pad <= c.x && hgt(inputs, order, p) + pad <= c.shelf_height
    }
    &&& forall|p: int| 0 <= p < k && (#[trigger] pl[p]).0 == c.page ==>
        pl[p].1 + wid(inputs, order, p) + pad <= c.extent_x && pl[p].2 + hgt(inputs, order, p) + pad <= c.extent_y
    &&& forall|p: int| 0 <= p < k && (#[trigger] pl[p]).0 < c.page ==>
        pl[p].1 + wid(inputs, order, p) + pad <= pages[pl[p].0 as int].width
        && pl[p].2 + hgt(inputs, order, p) + pad <= pages[pl[p].0 as int].height
    &&& forall|p: int, q: int| 0 <= p < k && 0 <= q < k && p != q && (#[trigger] pl[p]).0 == (#[trigger] pl[q]).0 ==>
        apart(pl[p].1 as int, pl[p].2 as int, wid(inputs, order, p), hgt(inputs, order, p),
            pl[q].1 as int, pl[q].2 as int, wid(inputs, order, q), hgt(inputs, order, q), pad as int)
}

proof fn lemma_next_pow2_ge(v: nat)
    ensures
        v <= next_pow2(v),
    decreases v,
{
    if v > 1 {
        lemma_next_pow2_ge(((v + 1) / 2) as nat);
    }
}

proof fn lemma_page_dim_covers(extent: u32, max_dim: u32, need: int)
    requires
        need <= extent,
        need <= max_dim,
    ensures
        need <= page_dim(extent, max_dim),
{
    lemma_next_pow2_ge(if extent == 0 { 1 } else { extent as nat });
}

/// Later sprites in packing order are no taller.
proof fn lemma_order_heights(inputs: Seq<PackInput>, order: Seq<int>, p: int, q: int)
    requires
        is_pack_order(inputs, order),
        0 <= p < q < order.len(),
    ensures
        hgt(inputs, order, q) <= hgt(inputs, order, p),
{
    assert(packs_before(inputs, order[p], order[q]));
}

proof fn lemma_packing_inv(inputs: Seq<PackInput>, order: Seq<int>, k: int, pad: u32, max_dim: u32)
    requires
        0 <= k <= inputs.len(),
        inputs.len() < u32::MAX,
        is_pack_order(inputs, order),
        pack_fits(max_dim, pad),
        max_dim >= 2 * pad,
        forall|i: int| 0 <= i < inputs.len() ==> (#[trigger] inputs[i]).width <= max_usable(max_dim, pad)
            && inputs[i].height <= max_usable(max_dim, pad),
    ensures
        packing_inv(inputs, order, k, pad, max_dim),
    decreases k,
{
    if k > 0 {
        lemma_packing_inv(inputs, order, k - 1, pad, max_dim);
        let prev = run(inputs, order, k - 1, pad, max_dim);
        let c = prev.0;
        let pages = prev.1;
        let pl = prev.2;
        let q = k - 1;
        let input = inputs[order[q]];
        assert(0 <= order[q] < inputs.len());
        let w = input.width;
        let h = input.height;
        let cw = w + pad;
        let ch = h + pad;
        let c1 = if !c.open { opened(c, pages.len() == 0, pad) } else { c };
        let c2 = if c1.shelf_height == 0 { ShelfCursor { shelf_height: ch as u32, ..c1 } } else { c1 };
        if q > 0 {
            lemma_order_heights(inputs, order, q - 1, q);
        }
        let st = run(inputs, order, k, pad, max_dim);
        assert(st == (place(c, pages, w, h, pad, max_dim).0, place(c, pages, w, h, pad, max_dim).1, pl.push(place(c, pages, w, h, pad, max_dim).2)));
        // Where the sprite goes, before it is placed.
        let fits = c2.x + cw <= max_dim;
        let new_shelf = !fits && c2.y + c2.shelf_height + ch <= max_dim;
        let c3 = if fits {
            c2
        } else if new_shelf {
            ShelfCursor { y: (c2.y + c2.shelf_height) as u32, x: pad, shelf_height: ch as u32, ..c2 }
        } else {
            ShelfCursor { shelf_height: ch as u32, ..opened(c2, false, pad) }
        };
        let pages3 = if fits || new_shelf {
            pages
        } else {
            pages.push(AtlasPage { width: page_dim(c2.extent_x, max_dim), height: page_dim(c2.extent_y, max_dim) })
        };
        assert(place(c, pages, w, h, pad, max_dim).2 == (c3.page, c3.x, c3.y));
        assert(place(c, pages, w, h, pad, max_dim).1 == pages3);
        // The earlier sprites of the page the sprite lands on lie above its
        // shelf or to its left.
        assert forall|p: int| 0 <= p < q && (#[trigger] pl[p]).0 == c3.page implies {
            ||| pl[p].2 + hgt(inputs, order, p) + pad <= c3.y
            ||| pl[p].2 == c3.y && pl[p].1 + wid(inputs, order, p) + pad <= c3.x && hgt(inputs, order, p) + pad <= c3.shelf_height
        } && pl[p].1 + wid(inputs, order, p) + pad <= c3.extent_x && pl[p].2 + hgt(inputs, order, p) + pad <= c3.extent_y by {
            assert(c.open);
            assert(pl[p].0 <= c.page);
            if fits || new_shelf {
                assert(c3.page == c.page);
            } else {
                assert(c3.page == c.page + 1);
            }
        }
        if !fits && !new_shelf {
            assert forall|p: int| 0 <= p < q && (#[trigger] pl[p]).0 < c3.page implies
                pl[p].1 + wid(inputs, order, p) + pad <= pages3[pl[p].0 as int].width
                && pl[p].2 + hgt(inputs, order, p) + pad <= pages3[pl[p].0 as int].height by {
                if pl[p].0 == c.page {
                    lemma_page_dim_covers(c2.extent_x, max_dim, pl[p].1 + wid(inputs, order, p) + pad);
                    lemma_page_dim_covers(c2.extent_y, max_dim, pl[p].2 + hgt(inputs, order, p) + pad);
                }
            }
        }
        assert(ch <= c3.shelf_height);
        assert forall|a: int, b: int| 0 <= a < k && 0 <= b < k && a != b && (#[trigger] st.2[a]).0 == (#[trigger] st.2[b]).0 implies
            apart(st.2[a].1 as int, st.2[a].2 as int, wid(inputs, order, a), hgt(inputs, order, a),
                st.2[b].1 as int, st.2[b].2 as int, wid(inputs, order, b), hgt(inputs, order, b), pad as int) by {
            if a < q && b < q {
                assert(st.2[a] == pl[a] && st.2[b] == pl[b]);
            } else if a == q {
                assert(st.2[b] == pl[b]);
            } else {
                assert(st.2[a] == pl[a]);
            }
        }
        let c4 = st.0;
        let pl4 = st.2;
        assert(pl4.len() == k);
        assert(st.1.len() <= k);
        assert(c4.open && c4.page == st.1.len());
        assert(c4.y + c4.shelf_height <= max_dim && c4.x <= max_dim && c4.extent_x <= max_dim && c4.extent_y <= max_dim);
        assert(pl4[k - 1].0 == c4.page && pl4[k - 1].2 == c4.y && hgt(inputs, order, k - 1) + pad <= c4.shelf_height);
        assert(forall|p: int| 0 <= p < k ==> (#[trigger] pl4[p]).0 <= c4.page && pl4[p].1 >= pad && pl4[p].2 >= pad);
        assert(forall|p: int| 0 <= p < k && (#[trigger] pl4[p]).0 == c4.page ==> {
            ||| pl4[p].2 + hgt(inputs, order, p) + pad <= c4.y
            ||| pl4[p].2 == c4.y && pl4[p].1 + wid(inputs, order, p) + pad <= c4.x && hgt(inputs, order, p) + pad <= c4.shelf_height
        });
        assert(forall|p: int| 0 <= p < k && (#[trigger] pl4[p]).0 == c4.page ==>
            pl4[p].1 + wid(inputs, order, p) + pad <= c4.extent_x && pl4[p].2 + hgt(inputs, order, p) + pad <= c4.extent_y);
        assert(forall|p: int| 0 <= p < k && (#[trigger] pl4[p]).0 < c4.page ==>
            pl4[p].1 + wid(inputs, order, p) + pad <= st.1[pl4[p].0 as int].width
            && pl4[p].2 + hgt(inputs, order, p) + pad <= st.1[pl4[p].0 as int].height);
    }
}

/// The `p`-th sprite in packing order (`pl` its page and position) starts a
/// new page only because it fits neither to the right of the sprite before
/// it nor on a new shelf below the lowest shelf of that sprite's page.
pub open spec fn new_page_forced(inputs: Seq<PackInput>, order: Seq<int>, pl: Seq<(u32, u32, u32)>, p: int, pad: u32, max_dim: u32) -> bool {
    &&& pl[p - 1].1 + wid(inputs, order, p - 1) + pad + wid(inputs, order, p) + pad > max_dim
    &&& exists|q: int| 0 <= q < p && (#[trigger] pl[q]).0 == pl[p - 1].0
        && pl[q].2 + hgt(inputs, order, q) + pad + hgt(inputs, order, p) + pad > max_dim
}

/// What the cursor remembers of the placed sprites, and why pages were
/// closed: the cursor stands just right of the last sprite, its shelf is as
/// tall as a sprite of the shelf (padding included), pages never go back,
/// and each new page was forced.
pub open spec fn closing_inv(inputs: Seq<PackInput>, order: Seq<int>, k: int, pad: u32, max_dim: u32) -> bool {
    let st = run(inputs, order, k, pad, max_dim);
    let c = st.0;
    let pl = st.2;
    &&& (k > 0 ==> c.x == pl[k - 1].1 + wid(inputs, order, k - 1) + pad)
    &&& (k > 0 ==> exists|q: int| 0 <= q < k && (#[trigger] pl[q]).0 == c.page && pl[q].2 == c.y
        && hgt(inputs, order, q) + pad == c.shelf_height)
    &&& forall|p: int| 0 < p < k ==> pl[p - 1].0 <= (#[trigger] pl[p]).0
    &&& forall|p: int| 0 < p < k && (#[trigger] pl[p]).0 != pl[p - 1].0 ==> new_page_forced(inputs, order, pl, p, pad, max_dim)
    &&& (k > 0 ==> pl[0].0 == 0 && pl[0].1 == pad && pl[0].2 == pad)
    &&& forall|p: int| 0 < p < k && (#[trigger] pl[p]).0 != pl[p - 1].0 ==> pl[p].1 == pad && pl[p].2 == pad
    &&& forall|p: int| 0 < p < k && (#[trigger] pl[p]).0 == pl[p - 1].0 ==> next_on_page(inputs, order, pl, p, pad, max_dim)
}

/// The `p`-th sprite in packing order, on the page of the one before it,
/// goes just right of it on its shelf, or, only when it does not fit there,
/// at the left of a new shelf just below the tallest sprite of that shelf.
pub open spec fn next_on_page(inputs: Seq<PackInput>, order: Seq<int>, pl: Seq<(u32, u32, u32)>, p: int, pad: u32, max_dim: u32) -> bool {
    ||| pl[p].2 == pl[p - 1].2 && pl[p].1 == pl[p - 1].1 + wid(inputs, order, p - 1) + pad
    ||| pl[p].1 == pad && pl[p - 1].1 + wid(inputs, order, p - 1) + pad + wid(inputs, order, p) + pad > max_dim
        && exists|q: int| 0 <= q < p && (#[trigger] pl[q]).0 == pl[p].0 && pl[q].2 == pl[p - 1].2
            && pl[p].2 == pl[q].2 + hgt(inputs, order, q) + pad
}

proof fn lemma_closing_inv(inputs: Seq<PackInput>, order: Seq<int>, k: int, pad: u32, max_dim: u32)
    requires
        0 <= k <= inputs.len(),
        inputs.len() < u32::MAX,
        is_pack_order(inputs, order),
        pack_fits(max_dim, pad),
        max_dim >= 2 * pad,
        forall|i: int| 0 <= i < inputs.len() ==> (#[trigger] inputs[i]).width <= max_usable(max_dim, pad)
            && inputs[i].height <= max_usable(max_dim, pad),
    ensures
        closing_inv(inputs, order, k, pad, max_dim),
    decreases k,
{
    if k > 0 {
        lemma_closing_inv(inputs, order, k - 1, pad, max_dim);
        lemma_packing_inv(inputs, order, k - 1, pad, max_dim);
        let prev = run(inputs, order, k - 1, pad, max_dim);
        let c = prev.0;
        let pages = prev.1;
        let pl = prev.2;
        let q0 = k - 1;
        let input = inputs[order[q0]];
        assert(0 <= order[q0] < inputs.len());
        let w = input.width;
        let h = input.height;
        let cw = w + pad;
        let ch = h + pad;
        let c1 = if !c.open { opened(c, pages.len() == 0, pad) } else { c };
        let c2 = if c1.shelf_height == 0 { ShelfCursor { shelf_height: ch as u32, ..c1 } } else { c1 };
        if q0 > 0 {
            lemma_order_heights(inputs, order, q0 - 1, q0);
        }
        let st = run(inputs, order, k, pad, max_dim);
        let pl4 = st.2;
        let c4 = st.0;
        assert(st == (place(c, pages, w, h, pad, max_dim).0, place(c, pages, w, h, pad, max_dim).1, pl.push(place(c, pages, w, h, pad, max_dim).2)));
        let fits = c2.x + cw <= max_dim;
        let new_shelf = !fits && c2.y + c2.shelf_height + ch <= max_dim;
        assert(forall|p: int| 0 <= p < q0 ==> pl4[p] == pl[p]);
        // The shelf height is that of a sprite on the shelf.
        if fits && c.open && c.shelf_height != 0 {
            let q = choose|q: int| 0 <= q < q0 && (#[trigger] pl[q]).0 == c.page && pl[q].2 == c.y
                && hgt(inputs, order, q) + pad == c.shelf_height;
            assert(pl4[q] == pl[q]);
        } else {
            assert(pl4[q0].0 == c4.page && pl4[q0].2 == c4.y && hgt(inputs, order, q0) + pad == c4.shelf_height);
        }
        // A new page is forced.
        if q0 > 0 && pl4[q0].0 != pl4[q0 - 1].0 {
            assert(c.open);
            assert(!fits && !new_shelf);
            if c.shelf_height == 0 {
                assert(false);
            }
            let q = choose|q: int| 0 <= q < q0 && (#[trigger] pl[q]).0 == c.page && pl[q].2 == c.y
                && hgt(inputs, order, q) + pad == c.shelf_height;
            assert(pl4[q] == pl[q]);
            assert(pl4[q0 - 1] == pl[q0 - 1]);
            assert(new_page_forced(inputs, order, pl4, q0, pad, max_dim));
        }
        assert forall|p: int| 0 < p < k && (#[trigger] pl4[p]).0 != pl4[p - 1].0 implies new_page_forced(inputs, order, pl4, p, pad, max_dim) by {
            if p < q0 {
                assert(pl4[p] == pl[p] && pl4[p - 1] == pl[p - 1]);
                assert(new_page_forced(inputs, order, pl, p, pad, max_dim));
                let q = choose|q: int| 0 <= q < p && (#[trigger] pl[q]).0 == pl[p - 1].0
                    && pl[q].2 + hgt(inputs, order, q) + pad + hgt(inputs, order, p) + pad > max_dim;
                assert(pl4[q] == pl[q]);
            }
        }
        assert forall|p: int| 0 < p < k implies pl4[p - 1].0 <= (#[trigger] pl4[p]).0 by {
            if p < q0 {
                assert(pl4[p] == pl[p] && pl4[p - 1] == pl[p - 1]);
            }
        }
        // Where on its page the sprite goes.
        if q0 > 0 && pl4[q0].0 == pl4[q0 - 1].0 {
            assert(pl4[q0 - 1] == pl[q0 - 1]);
            if !fits {
                if c.shelf_height == 0 {
                    assert(ch == 0);
                }
                let q = choose|q: int| 0 <= q < q0 && (#[trigger] pl[q]).0 == c.page && pl[q].2 == c.y
                    && hgt(inputs, order, q) + pad == c.shelf_height;
                assert(pl4[q] == pl[q]);
            }
            assert(next_on_page(inputs, order, pl4, q0, pad, max_dim));
        }
        assert forall|p: int| 0 < p < k && (#[trigger] pl4[p]).0 == pl4[p - 1].0 implies next_on_page(inputs, order, pl4, p, pad, max_dim) by {
            if p < q0 {
                assert(pl4[p] == pl[p] && pl4[p - 1] == pl[p - 1]);
                assert(next_on_page(inputs, order, pl, p, pad, max_dim));
                if !(pl[p].2 == pl[p - 1].2 && pl[p].1 == pl[p - 1].1 + wid(inputs, order, p - 1) + pad) {
                    let q = choose|q: int| 0 <= q < p && (#[trigger] pl[q]).0 == pl[p].0 && pl[q].2 == pl[p - 1].2
                        && pl[p].2 == pl[q].2 + hgt(inputs, order, q) + pad;
                    assert(pl4[q] == pl[q]);
                }
            }
        }
        assert forall|p: int| 0 < p < k && (#[trigger] pl4[p]).0 != pl4[p - 1].0 implies pl4[p].1 == pad && pl4[p].2 == pad by {
            if p < q0 {
                assert(pl4[p] == pl[p] && pl4[p - 1] == pl[p - 1]);
            }
        }
        if q0 == 0 {
            assert(fits);
        } else {
            assert(pl4[0] == pl[0]);
        }
    }
}

/// Every position appears in a permutation.
proof fn lemma_perm_onto(order: Seq<int>, n: int, i: int)
    requires
        is_permutation(order, n),
        0 <= i < n,
    ensures
        exists|p: int| 0 <= p < n && order[p] == i,
{
    if forall|p: int| 0 <= p < n ==> order[p] != i {
        let img = Set::new(|v: int| 0 <= v < n && v != i);
        assert forall|p: int| 0 <= p < n implies img.contains(#[trigger] order[p]) by {}
        order.unique_seq_to_set();
        assert(order.to_set().subset_of(img));
        assert(img =~= vstd::set_lib::set_int_range(0, n).remove(i));
        vstd::set_lib::lemma_int_range(0, n);
        vstd::set_lib::lemma_len_subset(order.to_set(), img);
        assert(false);
    }
}

/// The geometry of a packing: each sprite lies on an existing page, inside
/// it with its padding, and no two sprites of a page overlap, padding
/// included.
pub open spec fn well_packed(r: PackResult, pad: u32) -> bool {
    let ss = r.sprites@;
    &&& forall|i: int| 0 <= i < ss.len() ==> {
        let s = #[trigger] ss[i];
        &&& s.page < r.pages@.len()
        &&& s.x >= pad && s.y >= pad
        &&& s.x + s.width + pad <= r.pages@[s.page as int].width
        &&& s.y + s.height + pad <= r.pages@[s.page as int].height
    }
    &&& forall|i: int, j: int| 0 <= i < ss.len() && 0 <= j < ss.len() && i != j && (#[trigger] ss[i]).page == (#[trigger] ss[j]).page ==>
        apart(ss[i].x as int, ss[i].y as int, ss[i].width as int, ss[i].height as int,
            ss[j].x as int, ss[j].y as int, ss[j].width as int, ss[j].height as int, pad as int)
}

proof fn lemma_packed_geometry(inputs: Seq<PackInput>, order: Seq<int>, pad: u32, max_dim: u32, r: PackResult)
    requires
        is_pack_order(inputs, order),
        packed(inputs, order, pad, max_dim, r),
        inputs.len() < u32::MAX,
        pack_fits(max_dim, pad),
        max_dim >= 2 * pad,
        forall|i: int| 0 <= i < inputs.len() ==> (#[trigger] inputs[i]).width <= max_usable(max_dim, pad)
            && inputs[i].height <= max_usable(max_dim, pad),
    ensures
        well_packed(r, pad),
{
    let n = inputs.len() as int;
    if n > 0 {
        lemma_packing_inv(inputs, order, n, pad, max_dim);
        let done = run(inputs, order, n, pad, max_dim);
        let last = AtlasPage { width: page_dim(done.0.extent_x, max_dim), height: page_dim(done.0.extent_y, max_dim) };
        assert(r.pages@ == done.1.push(last));
        let ss = r.sprites@;
        assert forall|i: int| 0 <= i < ss.len() implies {
            let s = #[trigger] ss[i];
            &&& s.page < r.pages@.len()
            &&& s.x >= pad && s.y >= pad
            &&& s.x + s.width + pad <= r.pages@[s.page as int].width
            &&& s.y + s.height + pad <= r.pages@[s.page as int].height
        } by {
            lemma_perm_onto(order, n, i);
            let p = choose|p: int| 0 <= p < n && order[p] == i;
            assert(ss[order[p]] == ss[i]);
            assert((ss[i].page, ss[i].x, ss[i].y) == done.2[p]);
            assert(done.2[p].0 <= done.0.page);
            if done.2[p].0 == done.0.page {
                lemma_page_dim_covers(done.0.extent_x, max_dim, ss[i].x + ss[i].width + pad);
                lemma_page_dim_covers(done.0.extent_y, max_dim, ss[i].y + ss[i].height + pad);
            }
        }
        assert forall|i: int, j: int| 0 <= i < ss.len() && 0 <= j < ss.len() && i != j && (#[trigger] ss[i]).page == (#[trigger] ss[j]).page implies
            apart(ss[i].x as int, ss[i].y as int, ss[i].width as int, ss[i].height as int,
                ss[j].x as int, ss[j].y as int, ss[j].width as int, ss[j].height as int, pad as int) by {
            lemma_perm_onto(order, n, i);
            lemma_perm_onto(order, n, j);
            let p = choose|p: int| 0 <= p < n && order[p] == i;
            let q = choose|q: int| 0 <= q < n && order[q] == j;
            assert(ss[order[p]] == ss[i]);
            assert(ss[order[q]] == ss[j]);
            assert(done.2[p].0 == done.2[q].0);
        }
    }
}

/// Taking the sprites in packing `order`, each sprite stays on the page of
/// the one before it or starts the next page, and starts it only because it
/// fits neither to the right of that sprite nor on a new shelf below a
/// sprite of that page.
pub open spec fn pages_forced(r: PackResult, order: Seq<int>, pad: u32, max_dim: u32) -> bool {
    forall|p: int| 0 < p < order.len() ==> {
        let a = r.sprites@[order[p - 1]];
        let b = #[trigger] r.sprites@[order[p]];
        &&& b.page == a.page || b.page == a.page + 1
        &&& b.page != a.page ==> {
            &&& a.x + a.width + pad + b.width + pad > max_dim
            &&& exists|q: int| 0 <= q < p && (#[trigger] r.sprites@[order[q]]).page == a.page
                && r.sprites@[order[q]].y + r.sprites@[order[q]].height + pad + b.height + pad > max_dim
        }
    }
}

/// Taking the sprites in packing `order`: the first sits at the padding
/// corner of page zero, a sprite starting a page at that page's padding
/// corner, and a sprite on the page of the one before it just right of that
/// one on its shelf or, only when it does not fit there, at the left of a
/// new shelf just below the tallest sprite of that shelf.
pub open spec fn shelf_layout(r: PackResult, order: Seq<int>, pad: u32, max_dim: u32) -> bool {
    &&& order.len() > 0 ==> r.sprites@[order[0]].page == 0 && r.sprites@[order[0]].x == pad && r.sprites@[order[0]].y == pad
    &&& forall|p: int| 0 < p < order.len() ==> {
        let a = r.sprites@[order[p - 1]];
        let b = #[trigger] r.sprites@[order[p]];
        &&& b.page != a.page ==> b.x == pad && b.y == pad
        &&& b.page == a.page ==> {
            ||| b.y == a.y && b.x == a.x + a.width + pad
            ||| b.x == pad && a.x + a.width + pad + b.width + pad > max_dim
                && exists|q: int| 0 <= q < p && (#[trigger] r.sprites@[order[q]]).page == b.page
                    && r.sprites@[order[q]].y == a.y && b.y == r.sprites@[order[q]].y + r.sprites@[order[q]].height + pad
        }
    }
}

/// The shelf packer opens a new page only when it must: the sprite that
/// starts a page fits neither to the right of the sprite packed before it
/// nor on a new shelf below the previous page's lowest shelf.
pub proof fn lemma_new_page_forced(inputs: Seq<PackInput>, order: Seq<int>, pad: u32, max_dim: u32, r: PackResult)
    requires
        is_pack_order(inputs, order),
        packed(inputs, order, pad, max_dim, r),
        inputs.len() < u32::MAX,
        pack_fits(max_dim, pad),
        max_dim >= 2 * pad,
        forall|i: int| 0 <= i < inputs.len() ==> (#[trigger] inputs[i]).width <= max_usable(max_dim, pad)
            && inputs[i].height <= max_usable(max_dim, pad),
    ensures
        pages_forced(r, order, pad, max_dim),
{
    let n = inputs.len() as int;
    lemma_closing_inv(inputs, order, n, pad, max_dim);
    lemma_packing_inv(inputs, order, n, pad, max_dim);
    let done = run(inputs, order, n, pad, max_dim);
    let pl = done.2;
    assert forall|p: int| 0 < p < order.len() implies {
        let a = r.sprites@[order[p - 1]];
        let b = #[trigger] r.sprites@[order[p]];
        &&& b.page == a.page || b.page == a.page + 1
        &&& b.page != a.page ==> {
            &&& a.x + a.width + pad + b.width + pad > max_dim
            &&& exists|q: int| 0 <= q < p && (#[trigger] r.sprites@[order[q]]).page == a.page
                && r.sprites@[order[q]].y + r.sprites@[order[q]].height + pad + b.height + pad > max_dim
        }
    } by {
        let a = r.sprites@[order[p - 1]];
        let b = r.sprites@[order[p]];
        assert((a.page, a.x, a.y) == pl[p - 1]);
        assert((b.page, b.x, b.y) == pl[p]);
        assert(pl[p - 1].0 <= pl[p].0 && pl[p].0 <= pl[p - 1].0 + 1);
        if b.page != a.page {
            assert(new_page_forced(inputs, order, pl, p, pad, max_dim));
            let q = choose|q: int| 0 <= q < p && (#[trigger] pl[q]).0 == pl[p - 1].0
                && pl[q].2 + hgt(inputs, order, q) + pad + hgt(inputs, order, p) + pad > max_dim;
            let s = r.sprites@[order[q]];
            assert((s.page, s.x, s.y) == pl[q]);
        }
    }
}

/// The shelf packer's layout: each sprite goes just right of the one packed
/// before it, or, only when it does not fit there, on a new shelf just below
/// the tallest sprite of that shelf, or at the padding corner of a new page.
pub proof fn lemma_shelf_layout(inputs: Seq<PackInput>, order: Seq<int>, pad: u32, max_dim: u32, r: PackResult)
    requires
        is_pack_order(inputs, order),
        packed(inputs, order, pad, max_dim, r),
        inputs.len() < u32::MAX,
        pack_fits(max_dim, pad),
        max_dim >= 2 * pad,
        forall|i: int| 0 <= i < inputs.len() ==> (#[trigger] inputs[i]).width <= max_usable(max_dim, pad)
            && inputs[i].height <= max_usable(max_dim, pad),
    ensures
        shelf_layout(r, order, pad, max_dim),
{
    let n = inputs.len() as int;
    lemma_closing_inv(inputs, order, n, pad, max_dim);
    let done = run(inputs, order, n, pad, max_dim);
    let pl = done.2;
    if n > 0 {
        let f = r.sprites@[order[0]];
        assert((f.page, f.x, f.y) == pl[0]);
    }
    assert forall|p: int| 0 < p < order.len() implies {
        let a = r.sprites@[order[p - 1]];
        let b = #[trigger] r.sprites@[order[p]];
        &&& b.page != a.page ==> b.x == pad && b.y == pad
        &&& b.page == a.page ==> {
            ||| b.y == a.y && b.x == a.x + a.width + pad
            ||| b.x == pad && a.x + a.width + pad + b.width + pad > max_dim
                && exists|q: int| 0 <= q < p && (#[trigger] r.sprites@[order[q]]).page == b.page
                    && r.sprites@[order[q]].y == a.y && b.y == r.sprites@[order[q]].y + r.sprites@[order[q]].height + pad
        }
    } by {
        let a = r.sprites@[order[p - 1]];
        let b = r.sprites@[order[p]];
        assert((a.page, a.x, a.y) == pl[p - 1]);
        assert((b.page, b.x, b.y) == pl[p]);
        if b.page == a.page {
            assert(next_on_page(inputs, order, pl, p, pad, max_dim));
            if !(pl[p].2 == pl[p - 1].2 && pl[p].1 == pl[p - 1].1 + wid(inputs, order, p - 1) + pad) {
                let q = choose|q: int| 0 <= q < p && (#[trigger] pl[q]).0 == pl[p].0 && pl[q].2 == pl[p - 1].2
                    && pl[p].2 == pl[q].2 + hgt(inputs, order, q) + pad;
                let s = r.sprites@[order[q]];
                assert((s.page, s.x, s.y) == pl[q]);
            }
        }
    }
}

/// Page `j` of a packing holds at least one sprite.
pub open spec fn holds_sprite(r: PackResult, j: int) -> bool {
    exists|i: int| 0 <= i < r.sprites@.len() && (#[trigger] r.sprites@[i]).page == j
}

/// In placements that start on page zero and move at most one page at a
/// time, every page up to the last one used is used.
proof fn lemma_pages_covered(pl: Seq<(u32, u32, u32)>, j: int)
    requires
        pl.len() > 0,
        pl[0].0 == 0,
        forall|p: int| 0 < p < pl.len() ==> (#[trigger] pl[p]).0 <= pl[p - 1].0 + 1,
        0 <= j <= pl.last().0,
    ensures
        exists|p: int| 0 <= p < pl.len() && (#[trigger] pl[p]).0 == j,
    decreases pl.len(),
{
    let n = pl.len() as int;
    if pl[n - 1].0 == j {
        assert(pl[n - 1].0 == j);
    } else {
        let q = pl.drop_last();
        assert(n > 1);
        assert(pl[n - 1].0 <= pl[n - 2].0 + 1);
        assert forall|p: int| 0 < p < q.len() implies (#[trigger] q[p]).0 <= q[p - 1].0 + 1 by {
            assert(q[p] == pl[p] && q[p - 1] == pl[p - 1]);
        }
        lemma_pages_covered(q, j);
        let p = choose|p: int| 0 <= p < q.len() && (#[trigger] q[p]).0 == j;
        assert(pl[p] == q[p]);
    }
}

/// Place one sprite, as `place` describes.
fn place_step(c: ShelfCursor, pages: &mut Vec<AtlasPage>, w: u32, h: u32, pad: u32, max_dim: u32) -> (r: (ShelfCursor, (u32, u32, u32)))
    requires
        pack_fits(max_dim, pad),
        w <= max_usable(max_dim, pad),
        h <= max_usable(max_dim, pad),
        cursor_ok(c, old(pages)@, max_dim, pad),
        !c.open ==> old(pages)@.len() == 0 && c.page == 0,
        c.open ==> h + pad <= c.shelf_height,
        old(pages)@.len() < u32::MAX,
    ensures
        (r.0, final(pages)@, r.1) == place(c, old(pages)@, w, h, pad, max_dim),
        cursor_ok(r.0, final(pages)@, max_dim, pad),
        r.0.open,
        h + pad <= r.0.shelf_height,
        final(pages)@.len() <= old(pages)@.len() + 1,
{
    let ghost m = cursor_bound(max_dim, pad);
    let mut c = c;
    if !c.open {
        c = ShelfCursor { page: c.page, x: pad, y: pad, shelf_height: 0, extent_x: 0, extent_y: 0, open: true };
    }
    let cell_w = w + pad;
    let cell_h = h + pad;
    if c.shelf_height == 0 {
        c.shelf_height = cell_h;
    }
    if c.x + cell_w > max_dim {
        let new_shelf_y = c.y + c.shelf_height;
        if new_shelf_y + cell_h > max_dim {
            let pw = next_power_of_two_clamped(c.extent_x, max_dim);
            let ph = next_power_of_two_clamped(c.extent_y, max_dim);
            pages.push(AtlasPage { width: pw, height: ph });
            c = ShelfCursor { page: c.page + 1, x: pad, y: pad, shelf_height: cell_h, extent_x: 0, extent_y: 0, open: true };
        } else {
            c.y = new_shelf_y;
            c.x = pad;
            c.shelf_height = cell_h;
        }
    }
    let at = (c.page, c.x, c.y);
    c.x = c.x + cell_w;
    let used_x = c.x;
    let used_y = c.y + c.shelf_height;
    if used_x > c.extent_x {
        c.extent_x = used_x;
    }
    if used_y > c.extent_y {
        c.extent_y = used_y;
    }
    (c, at)
}

/// Pack `inputs` into pages of at most `max_dim` pixels a side, with
/// `padding` pixels around each sprite: sorted tallest first, then widest,
/// then by id, keys equal in input order; sprites come back in input order.
pub fn pack_shelf(inputs: &[PackInput], max_dim: u32, padding: u32) -> (r: PackResult)
    requires
        inputs@.len() > 0 ==> inputs@.len() < u32::MAX,
        inputs@.len() > 0 ==> pack_fits(max_dim, padding),
        forall|i: int| 0 <= i < inputs@.len() ==> (#[trigger] inputs@[i]).width <= max_usable(max_dim, padding)
            && inputs@[i].height <= max_usable(max_dim, padding),
    ensures
        exists|order: Seq<int>| is_pack_order(inputs@, order) && packed(inputs@, order, padding, max_dim, r),
        inputs@.len() == 0 ==> r.pages@.len() == 0 && r.sprites@.len() == 0,
        forall|j: int| 0 <= j < r.pages@.len() ==> (#[trigger] r.pages@[j]).width <= max_dim && r.pages@[j].height <= max_dim,
        max_dim >= 2 * padding ==> well_packed(r, padding),
        max_dim >= 2 * padding ==> forall|j: int| 0 <= j < r.pages@.len() ==> #[trigger] holds_sprite(r, j),
        max_dim >= 2 * padding ==> exists|order: Seq<int>| is_pack_order(inputs@, order) && pages_forced(r, order, padding, max_dim)
            && shelf_layout(r, order, padding, max_dim),
{
    let n = inputs.len();
    if n == 0 {
        let r = PackResult { pages: Vec::new(), sprites: Vec::new() };
        assert(is_pack_order(inputs@, Seq::<int>::empty()) && packed(inputs@, Seq::<int>::empty(), padding, max_dim, r));
        return r;
    }
    let pad = padding;
    let order = pack_order(inputs);
    let ghost o = order@.map_values(|x: usize| x as int);
    let mut slots: Vec<Option<(u32, u32, u32)>> = Vec::new();
    let mut i: usize = 0;
    while i < n
        invariant
            i <= n,
            slots@.len() == i,
            forall|j: int| 0 <= j < i ==> (#[trigger] slots@[j]) is None,
        decreases n - i,
    {
        slots.push(None);
        i += 1;
    }
    let mut pages: Vec<AtlasPage> = Vec::new();
    let mut c = ShelfCursor { page: 0, x: pad, y: pad, shelf_height: 0, extent_x: 0, extent_y: 0, open: false };
    let ghost mut placed: Seq<(u32, u32, u32)> = Seq::empty();
    let mut k: usize = 0;
    while k < n
        invariant
            n == inputs@.len(),
            0 < n < u32::MAX,
            pack_fits(max_dim, pad),
            pad == padding,
            forall|i: int| 0 <= i < inputs@.len() ==> (#[trigger] inputs@[i]).width <= max_usable(max_dim, padding)
                && inputs@[i].height <= max_usable(max_dim, padding),
            is_pack_order(inputs@, o),
            o == order@.map_values(|x: usize| x as int),
            order@.len() == n,
            k <= n,
            slots@.len() == n,
            (c, pages@, placed) == run(inputs@, o, k as int, pad, max_dim),
            cursor_ok(c, pages@, max_dim, pad),
            pages@.len() <= k,
            k == 0 ==> !c.open && pages@.len() == 0 && c.page == 0,
            k > 0 ==> c.open,
            k > 0 ==> inputs@[o[k - 1]].height + pad <= c.shelf_height,
            placed.len() == k,
            forall|p: int| 0 <= p < k ==> slots@[#[trigger] o[p]] == Some(placed[p]),
            forall|j: int| 0 <= j < n && (forall|p: int| 0 <= p < k ==> o[p] != j) ==> (#[trigger] slots@[j]) is None,
        decreases n - k,
    {
        let idx = order[k];
        assert(o[k as int] == idx as int);
        assert(0 <= o[k as int] < n);
        let input = inputs[idx];
        proof {
            if k > 0 {
                lemma_order_heights(inputs@, o, k - 1, k as int);
            }
        }
        let ghost prev = placed;
        let ghost slots0 = slots@;
        let (c2, at) = place_step(c, &mut pages, input.width, input.height, pad, max_dim);
        c = c2;
        slots.set(idx, Some(at));
        proof {
            placed = placed.push(at);
            assert forall|p: int| 0 <= p < k + 1 implies slots@[#[trigger] o[p]] == Some(placed[p]) by {
                if p < k {
                    assert(o[p] != o[k as int]);
                    assert(slots0[o[p]] == Some(prev[p]));
                }
            }
            assert forall|j: int| 0 <= j < n && (forall|p: int| 0 <= p < k + 1 ==> o[p] != j) implies (#[trigger] slots@[j]) is None by {
                assert(o[k as int] != j);
                assert(forall|p: int| 0 <= p < k ==> o[p] != j);
            }
        }
        k += 1;
    }
    let pw = next_power_of_two_clamped(c.extent_x, max_dim);
    let ph = next_power_of_two_clamped(c.extent_y, max_dim);
    pages.push(AtlasPage { width: pw, height: ph });
    let mut sprites: Vec<PackedSprite> = Vec::new();
    let mut i: usize = 0;
    while i < n
        invariant
            n == inputs@.len(),
            i <= n,
            slots@.len() == n,
            is_pack_order(inputs@, o),
            placed.len() == n,
            forall|p: int| 0 <= p < n ==> slots@[#[trigger] o[p]] == Some(placed[p]),
            sprites@.len() == i,
            forall|j: int| 0 <= j < i ==> {
                let s = #[trigger] sprites@[j];
                &&& s.id@ == inputs@[j].id@
                &&& s.width == inputs@[j].width
                &&& s.height == inputs@[j].height
                &&& slots@[j] == Some((s.page, s.x, s.y))
            },
        decreases n - i,
    {
        let input = inputs[i];
        proof {
            lemma_perm_onto(o, n as int, i as int);
        }
        match slots[i] {
            Some((page, x, y)) => {
                sprites.push(PackedSprite { id: input.id.to_owned(), page, x, y, width: input.width, height: input.height });
            },
            None => {
                proof {
                    let p = choose|p: int| 0 <= p < n && o[p] == i as int;
                    assert(slots@[o[p]] == Some(placed[p]));
                }
                sprites.push(PackedSprite { id: input.id.to_owned(), page: 0, x: 0, y: 0, width: input.width, height: input.height });
            },
        }
        i += 1;
    }
    let r = PackResult { pages, sprites };
    proof {
        assert forall|p: int| 0 <= p < n implies {
            let s = #[trigger] r.sprites@[o[p]];
            &&& s.id@ == inputs@[o[p]].id@
            &&& s.width == inputs@[o[p]].width
            &&& s.height == inputs@[o[p]].height
            &&& (s.page, s.x, s.y) == run(inputs@, o, n as int, padding, max_dim).2[p]
        } by {
            assert(slots@[o[p]] == Some(placed[p]));
        }
        assert(packed(inputs@, o, padding, max_dim, r));
        if max_dim >= 2 * padding {
            lemma_packed_geometry(inputs@, o, padding, max_dim, r);
            lemma_new_page_forced(inputs@, o, padding, max_dim, r);
            lemma_shelf_layout(inputs@, o, padding, max_dim, r);
            lemma_packing_inv(inputs@, o, n as int, padding, max_dim);
            let done = run(inputs@, o, n as int, padding, max_dim);
            assert forall|j: int| 0 <= j < r.pages@.len() implies #[trigger] holds_sprite(r, j) by {
                lemma_pages_covered(done.2, j);
                let p = choose|p: int| 0 <= p < done.2.len() && (#[trigger] done.2[p]).0 == j;
                assert(r.sprites@[o[p]].page == j);
                assert(0 <= o[p] < n);
            }
        }
    }
    r
}

} // verus!
