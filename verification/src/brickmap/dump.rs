//! The dump: the words that were built, in one file, to be held against what the graphics card has.
//!
//! The words are a header, a table with one row per volume, the volumes' words in layout order, the
//! palettes in layout order, and the reach table. Layout order is that of the snapshots: volumes
//! 1, 2, .. first, volume 0 last.

use super::builder::BrickMapBuilder;
use super::volumes::{
    palette_base_of, shows_words, struct_before, struct_total, totals_ok, tree_base_of,
    words_to_bytes, VolumesBuilder,
};
use super::wire::{
    lut_mask, march_mask_lut_words, march_reaches, BrickMapBuffers, MARCH_MASK_WORDS, PALETTE_WORDS,
};
use crate::bits::bit;
use vstd::prelude::*;

verus! {

/// First word of a dump: its bytes read `VOXD`.
pub const DUMP_MAGIC: u32 = 0x4458_4F56;

/// Number of this layout.
pub const DUMP_LAYOUT_VERSION: u32 = 2;

/// Words of the header.
pub const DUMP_HEADER_WORDS: usize = 16;

/// Words of a row of the volume table.
pub const DUMP_VOLUME_WORDS: usize = 16;

/// Word `k` of the header.
pub open spec fn header_word(bs: Seq<BrickMapBuilder>, k: int) -> u32 {
    let g = bs[0].globals();
    if k == 0 {
        DUMP_MAGIC
    } else if k == 1 {
        DUMP_LAYOUT_VERSION
    } else if k == 2 {
        bs.len() as u32
    } else if k == 3 {
        struct_total(bs) as u32
    } else if k == 4 {
        (bs.len() * PALETTE_WORDS) as u32
    } else if k == 5 {
        MARCH_MASK_WORDS as u32
    } else if k == 6 {
        g.index_origin_x as u32
    } else if k == 7 {
        g.index_origin_y as u32
    } else if k == 8 {
        g.index_origin_z as u32
    } else if k == 9 {
        g.index_dims_x
    } else if k == 10 {
        g.index_dims_y
    } else if k == 11 {
        g.index_dims_z
    } else if k == 12 {
        g.tile_count
    } else if k == 13 {
        g.node_words
    } else if k == 14 {
        g.node_free_words
    } else {
        g.rejected_tiles
    }
}

/// Word `k` of the table row of volume `i`.
pub open spec fn row_word(bs: Seq<BrickMapBuilder>, i: int, k: int) -> u32 {
    let g = bs[i].globals();
    if k == 0 {
        tree_base_of(bs, i) as u32
    } else if k == 1 {
        palette_base_of(bs, i) as u32
    } else if k == 2 {
        bs[i].words().len() as u32
    } else if k == 3 {
        PALETTE_WORDS as u32
    } else if k == 4 {
        g.index_origin_x as u32
    } else if k == 5 {
        g.index_origin_y as u32
    } else if k == 6 {
        g.index_origin_z as u32
    } else if k == 7 {
        g.index_dims_x
    } else if k == 8 {
        g.index_dims_y
    } else if k == 9 {
        g.index_dims_z
    } else if k == 10 {
        g.tile_count
    } else if k == 11 {
        g.node_words
    } else if k == 12 {
        g.node_free_words
    } else if k == 13 {
        g.rejected_tiles
    } else {
        0
    }
}

/// Words of the header and the table.
pub open spec fn head_len(bs: Seq<BrickMapBuilder>) -> int {
    16 + 16 * (bs.len() as int)
}

/// Words of a whole dump.
pub open spec fn dump_words(bs: Seq<BrickMapBuilder>) -> int {
    head_len(bs) + struct_total(bs) + bs.len() * PALETTE_WORDS + MARCH_MASK_WORDS
}

/// Header and table.
pub open spec fn is_head(w: Seq<u32>, bs: Seq<BrickMapBuilder>) -> bool {
    &&& forall|k: int| 0 <= k < 16 ==> #[trigger] w[k] == header_word(bs, k)
    &&& forall|i: int, k: int|
        0 <= i < bs.len() && 0 <= k < 16 ==> w[16 + 16 * i + k] == #[trigger] row_word(bs, i, k)
}

/// `part` stands in `w` from word `at` on.
pub open spec fn stands_at(w: Seq<u32>, at: int, part: Seq<u32>) -> bool {
    &&& 0 <= at
    &&& at + part.len() <= w.len()
    &&& forall|k: int| 0 <= k < part.len() ==> w[at + k] == #[trigger] part[k]
}

/// `t` is a reach table.
pub open spec fn is_reach_table(t: Seq<u32>) -> bool {
    &&& t.len() == MARCH_MASK_WORDS
    &&& forall|oct: int, entry: int, p: int|
        0 <= oct < 8 && 0 <= entry < 64 && 0 <= p < 64 ==> (#[trigger] bit(
            lut_mask(t, oct, entry),
            p,
        ) <==> march_reaches(oct, entry, p))
}

/// `w` is the dump of the volumes.
pub open spec fn is_dump(w: Seq<u32>, bs: Seq<BrickMapBuilder>) -> bool {
    &&& w.len() == dump_words(bs)
    &&& is_head(w, bs)
    &&& forall|i: int|
        0 <= i < bs.len() ==> stands_at(
            w,
            head_len(bs) + tree_base_of(bs, i),
            (#[trigger] bs[i]).words(),
        )
    &&& forall|i: int|
        0 <= i < bs.len() ==> stands_at(
            w,
            head_len(bs) + struct_total(bs) + palette_base_of(bs, i),
            (#[trigger] bs[i]).palette_words(),
        )
    &&& is_reach_table(
        w.subrange(
            head_len(bs) + struct_total(bs) + bs.len() * PALETTE_WORDS,
            w.len() as int,
        ),
    )
}

/// A dump and the words of its parts.
#[derive(Debug)]
pub struct Dump {
    pub words: Vec<u32>,
    pub head_words: usize,
    pub struct_words: usize,
    pub palette_words: usize,
}

fn push_head(out: &mut Vec<u32>, buffers: &Vec<&BrickMapBuffers>, struct_words: usize, Ghost(bs): Ghost<Seq<BrickMapBuilder>>)
    requires
        old(out).len() == 0,
        totals_ok(bs),
        buffers.len() == bs.len(),
        struct_words == struct_total(bs),
        forall|i: int| 0 <= i < bs.len() ==> (#[trigger] bs[i]).palette_words().len() == PALETTE_WORDS,
        forall|i: int| 0 <= i < bs.len() ==> shows_words(*#[trigger] buffers@[i], bs[i]),
    ensures
        final(out).len() == head_len(bs),
        is_head(final(out)@, bs),
{
    let n: usize = buffers.len();
    let m: &BrickMapBuffers = buffers[0];
    assert(shows_words(*buffers@[0], bs[0]));
    out.push(DUMP_MAGIC);
    out.push(DUMP_LAYOUT_VERSION);
    out.push(n as u32);
    out.push(struct_words as u32);
    out.push((n * PALETTE_WORDS) as u32);
    out.push(MARCH_MASK_WORDS as u32);
    out.push(m.globals.index_origin_x as u32);
    out.push(m.globals.index_origin_y as u32);
    out.push(m.globals.index_origin_z as u32);
    out.push(m.globals.index_dims_x);
    out.push(m.globals.index_dims_y);
    out.push(m.globals.index_dims_z);
    out.push(m.globals.tile_count);
    out.push(m.globals.node_words);
    out.push(m.globals.node_free_words);
    out.push(m.globals.rejected_tiles);
    let mut before: usize = 0;
    let mut i: usize = 0;
    while i < n
        invariant
            i <= n,
            n == bs.len(),
            n == buffers.len(),
            totals_ok(bs),
            struct_words == struct_total(bs),
            before == struct_before(bs, i as int),
            forall|j: int|
                0 <= j < bs.len() ==> (#[trigger] bs[j]).palette_words().len() == PALETTE_WORDS,
            forall|j: int| 0 <= j < bs.len() ==> shows_words(*#[trigger] buffers@[j], bs[j]),
            out.len() == 16 + 16 * i,
            forall|k: int| 0 <= k < 16 ==> #[trigger] out@[k] == header_word(bs, k),
            forall|j: int, k: int|
                0 <= j < i && 0 <= k < 16 ==> out@[16 + 16 * j + k] == #[trigger] row_word(bs, j, k),
        decreases n - i,
    {
        let b: &BrickMapBuffers = buffers[i];
        let ghost o0 = out@;
        proof {
            assert(shows_words(*buffers@[i as int], bs[i as int]));
            super::volumes::lemma_struct_before(bs, i + 1, n as int);
            super::volumes::lemma_base_bound(bs, i as int);
        }
        let tree_base: usize = if i == 0 { struct_words - buffers[0].b_struct.len() } else { before };
        let palette_base: usize = if i == 0 { (n - 1) * PALETTE_WORDS } else { (i - 1) * PALETTE_WORDS };
        assert(tree_base == tree_base_of(bs, i as int));
        out.push(tree_base as u32);
        out.push(palette_base as u32);
        out.push(b.b_struct.len() as u32);
        out.push(b.b_palette.len() as u32);
        out.push(b.globals.index_origin_x as u32);
        out.push(b.globals.index_origin_y as u32);
        out.push(b.globals.index_origin_z as u32);
        out.push(b.globals.index_dims_x);
        out.push(b.globals.index_dims_y);
        out.push(b.globals.index_dims_z);
        out.push(b.globals.tile_count);
        out.push(b.globals.node_words);
        out.push(b.globals.node_free_words);
        out.push(b.globals.rejected_tiles);
        out.push(0);
        out.push(0);
        proof {
            assert forall|j: int, k: int| 0 <= j < i + 1 && 0 <= k < 16 implies out@[16 + 16 * j + k]
                == #[trigger] row_word(bs, j, k) by {
                if j < i {
                    assert(o0[16 + 16 * j + k] == row_word(bs, j, k));
                    assert(out@[16 + 16 * j + k] == o0[16 + 16 * j + k]);
                } else {
                    assert(16 + 16 * j + k == o0.len() + k);
                }
            }
            assert forall|k: int| 0 <= k < 16 implies #[trigger] out@[k] == header_word(bs, k) by {
                assert(o0[k] == header_word(bs, k));
            }
        }
        if i > 0 {
            before = before + b.b_struct.len();
        }
        i += 1;
    }
}

proof fn lemma_still_stands(a: Seq<u32>, b: Seq<u32>, at: int, part: Seq<u32>)
    requires
        stands_at(a, at, part),
        a.len() <= b.len(),
        forall|k: int| 0 <= k < a.len() ==> #[trigger] b[k] == a[k],
    ensures
        stands_at(b, at, part),
{
    assert forall|k: int| 0 <= k < part.len() implies b[at + k] == #[trigger] part[k] by {
        assert(a[at + k] == part[k]);
    }
}

proof fn lemma_appended(a: Seq<u32>, part: Seq<u32>)
    ensures
        stands_at(a + part, a.len() as int, part),
        forall|k: int| 0 <= k < a.len() ==> #[trigger] (a + part)[k] == a[k],
{
}

/// The volumes' words in layout order.
fn push_words(out: &mut Vec<u32>, buffers: &Vec<&BrickMapBuffers>, Ghost(bs): Ghost<Seq<BrickMapBuilder>>)
    requires
        totals_ok(bs),
        buffers.len() == bs.len(),
        forall|i: int| 0 <= i < bs.len() ==> shows_words(*#[trigger] buffers@[i], bs[i]),
    ensures
        final(out).len() == old(out).len() + struct_total(bs),
        forall|k: int| 0 <= k < old(out).len() ==> #[trigger] final(out)@[k] == old(out)@[k],
        forall|i: int|
            0 <= i < bs.len() ==> stands_at(
                final(out)@,
                old(out).len() + tree_base_of(bs, i),
                (#[trigger] bs[i]).words(),
            ),
{
    let n: usize = buffers.len();
    let mut i: usize = 1;
    while i < n
        invariant
            1 <= i <= n,
            n == bs.len(),
            n == buffers.len(),
            forall|j: int| 0 <= j < bs.len() ==> shows_words(*#[trigger] buffers@[j], bs[j]),
            out.len() == old(out).len() + struct_before(bs, i as int),
            0 <= struct_before(bs, i as int),
            forall|k: int| 0 <= k < old(out).len() ==> #[trigger] out@[k] == old(out)@[k],
            forall|j: int|
                1 <= j < i ==> stands_at(
                    out@,
                    old(out).len() + tree_base_of(bs, j),
                    (#[trigger] bs[j]).words(),
                ),
        decreases n - i,
    {
        let ghost o0 = out@;
        assert(shows_words(*buffers@[i as int], bs[i as int]));
        out.extend_from_slice(buffers[i].b_struct.as_slice());
        proof {
            lemma_appended(o0, bs[i as int].words());
            assert(out@ =~= o0 + bs[i as int].words());
            assert forall|j: int| 1 <= j < i + 1 implies stands_at(
                out@,
                old(out).len() + tree_base_of(bs, j),
                (#[trigger] bs[j]).words(),
            ) by {
                if j < i {
                    lemma_still_stands(o0, out@, old(out).len() + tree_base_of(bs, j), bs[j].words());
                }
            }
        }
        i += 1;
    }
    let ghost o1 = out@;
    assert(shows_words(*buffers@[0], bs[0]));
    out.extend_from_slice(buffers[0].b_struct.as_slice());
    proof {
        lemma_appended(o1, bs[0].words());
        assert(out@ =~= o1 + bs[0].words());
        assert forall|j: int| 0 <= j < bs.len() implies stands_at(
            out@,
            old(out).len() + tree_base_of(bs, j),
            (#[trigger] bs[j]).words(),
        ) by {
            if j >= 1 {
                lemma_still_stands(o1, out@, old(out).len() + tree_base_of(bs, j), bs[j].words());
            }
        }
    }
}

/// The palettes in layout order.
fn push_palettes(out: &mut Vec<u32>, buffers: &Vec<&BrickMapBuffers>, Ghost(bs): Ghost<Seq<BrickMapBuilder>>)
    requires
        totals_ok(bs),
        buffers.len() == bs.len(),
        forall|i: int| 0 <= i < bs.len() ==> (#[trigger] bs[i]).palette_words().len() == PALETTE_WORDS,
        forall|i: int| 0 <= i < bs.len() ==> shows_words(*#[trigger] buffers@[i], bs[i]),
    ensures
        final(out).len() == old(out).len() + bs.len() * PALETTE_WORDS,
        forall|k: int| 0 <= k < old(out).len() ==> #[trigger] final(out)@[k] == old(out)@[k],
        forall|i: int|
            0 <= i < bs.len() ==> stands_at(
                final(out)@,
                old(out).len() + palette_base_of(bs, i),
                (#[trigger] bs[i]).palette_words(),
            ),
{
    let n: usize = buffers.len();
    let mut i: usize = 1;
    while i < n
        invariant
            1 <= i <= n,
            n == bs.len(),
            n == buffers.len(),
            forall|j: int|
                0 <= j < bs.len() ==> (#[trigger] bs[j]).palette_words().len() == PALETTE_WORDS,
            forall|j: int| 0 <= j < bs.len() ==> shows_words(*#[trigger] buffers@[j], bs[j]),
            out.len() == old(out).len() + (i - 1) * PALETTE_WORDS,
            forall|k: int| 0 <= k < old(out).len() ==> #[trigger] out@[k] == old(out)@[k],
            forall|j: int|
                1 <= j < i ==> stands_at(
                    out@,
                    old(out).len() + palette_base_of(bs, j),
                    (#[trigger] bs[j]).palette_words(),
                ),
        decreases n - i,
    {
        let ghost o0 = out@;
        assert(shows_words(*buffers@[i as int], bs[i as int]));
        out.extend_from_slice(buffers[i].b_palette.as_slice());
        proof {
            lemma_appended(o0, bs[i as int].palette_words());
            assert(out@ =~= o0 + bs[i as int].palette_words());
            assert forall|j: int| 1 <= j < i + 1 implies stands_at(
                out@,
                old(out).len() + palette_base_of(bs, j),
                (#[trigger] bs[j]).palette_words(),
            ) by {
                if j < i {
                    lemma_still_stands(
                        o0,
                        out@,
                        old(out).len() + palette_base_of(bs, j),
                        bs[j].palette_words(),
                    );
                }
            }
        }
        i += 1;
    }
    let ghost o1 = out@;
    assert(shows_words(*buffers@[0], bs[0]));
    out.extend_from_slice(buffers[0].b_palette.as_slice());
    proof {
        lemma_appended(o1, bs[0].palette_words());
        assert(out@ =~= o1 + bs[0].palette_words());
        assert forall|j: int| 0 <= j < bs.len() implies stands_at(
            out@,
            old(out).len() + palette_base_of(bs, j),
            (#[trigger] bs[j]).palette_words(),
        ) by {
            if j >= 1 {
                lemma_still_stands(
                    o1,
                    out@,
                    old(out).len() + palette_base_of(bs, j),
                    bs[j].palette_words(),
                );
            }
        }
    }
}

/// The dump of the volumes; `None` without volumes.
pub fn dump_voxel_buffers(builder: &VolumesBuilder) -> (r: Option<Dump>)
    requires
        builder.wf(),
        builder.builders().len() > 0 ==> totals_ok(builder.builders()) && 4 * dump_words(
            builder.builders(),
        ) <= usize::MAX,
    ensures
        match r {
            None => builder.builders().len() == 0,
            Some(d) => {
                &&& builder.builders().len() > 0
                &&& is_dump(d.words@, builder.builders())
                &&& d.head_words == head_len(builder.builders())
                &&& d.struct_words == struct_total(builder.builders())
                &&& d.palette_words == builder.builders().len() * PALETTE_WORDS
            },
        },
{
    let buffers: Vec<&BrickMapBuffers> = builder.volume_buffers();
    let n: usize = buffers.len();
    if n == 0 {
        return None;
    }
    let ghost bs = builder.builders();
    proof {
        builder.lemma_wf();
        assert forall|i: int| 0 <= i < bs.len() implies (#[trigger] bs[i]).palette_words().len()
            == PALETTE_WORDS by {
            bs[i].lemma_len();
        }
    }
    let mut struct_words: usize = 0;
    let mut i: usize = 1;
    while i < n
        invariant
            1 <= i <= n,
            n == bs.len(),
            n == buffers.len(),
            totals_ok(bs),
            struct_words == struct_before(bs, i as int),
            forall|j: int| 0 <= j < bs.len() ==> shows_words(*#[trigger] buffers@[j], bs[j]),
        decreases n - i,
    {
        proof {
            assert(shows_words(*buffers@[i as int], bs[i as int]));
            super::volumes::lemma_struct_before(bs, i + 1, n as int);
        }
        struct_words = struct_words + buffers[i].b_struct.len();
        i += 1;
    }
    assert(shows_words(*buffers@[0], bs[0]));
    struct_words = struct_words + buffers[0].b_struct.len();
    let palette_words: usize = n * PALETTE_WORDS;
    let mut words: Vec<u32> = Vec::new();
    push_head(&mut words, &buffers, struct_words, Ghost(bs));
    let head_words: usize = words.len();
    let ghost w1 = words@;
    push_words(&mut words, &buffers, Ghost(bs));
    let ghost w2 = words@;
    push_palettes(&mut words, &buffers, Ghost(bs));
    let ghost w3 = words@;
    let lut: Vec<u32> = march_mask_lut_words();
    words.extend_from_slice(lut.as_slice());
    proof {
        lemma_appended(w3, lut@);
        assert(words@ =~= w3 + lut@);
        assert(words@.subrange(w3.len() as int, words@.len() as int) =~= lut@);
        assert forall|i: int| 0 <= i < bs.len() implies stands_at(
            words@,
            head_len(bs) + tree_base_of(bs, i),
            (#[trigger] bs[i]).words(),
        ) by {
            lemma_still_stands(w2, w3, head_len(bs) + tree_base_of(bs, i), bs[i].words());
            lemma_still_stands(w3, words@, head_len(bs) + tree_base_of(bs, i), bs[i].words());
        }
        assert forall|i: int| 0 <= i < bs.len() implies stands_at(
            words@,
            head_len(bs) + struct_total(bs) + palette_base_of(bs, i),
            (#[trigger] bs[i]).palette_words(),
        ) by {
            lemma_still_stands(
                w3,
                words@,
                head_len(bs) + struct_total(bs) + palette_base_of(bs, i),
                bs[i].palette_words(),
            );
        }
        assert(is_head(words@, bs)) by {
            assert forall|k: int| 0 <= k < w1.len() implies #[trigger] words@[k] == w1[k] by {
                assert(w2[k] == w1[k]);
                assert(w3[k] == w2[k]);
            }
            assert forall|i: int, k: int| 0 <= i < bs.len() && 0 <= k < 16 implies words@[16 + 16 * i
                + k] == #[trigger] row_word(bs, i, k) by {
                assert(w1[16 + 16 * i + k] == row_word(bs, i, k));
                assert(words@[16 + 16 * i + k] == w1[16 + 16 * i + k]);
            }
        }
    }
    Some(Dump { words, head_words, struct_words, palette_words })
}

/// First of the three buffers (words, palettes, reach table) that is smaller than its part.
pub fn short_buffer(have: [u64; 3], need: [u64; 3]) -> (r: Option<usize>)
    ensures
        match r {
            Some(i) => i < 3 && have[i as int] < need[i as int] && forall|j: int|
                0 <= j < i ==> have[j] >= need[j],
            None => forall|j: int| 0 <= j < 3 ==> have[j] >= need[j],
        },
{
    let mut i: usize = 0;
    while i < 3
        invariant
            i <= 3,
            forall|j: int| 0 <= j < i ==> have[j] >= need[j],
        decreases 3 - i,
    {
        if have[i] < need[i] {
            return Some(i);
        }
        i += 1;
    }
    None
}

/// The other side's file: the same header, with what was read back behind it.
pub fn read_back_file(file: &Vec<u8>, head_bytes: usize, payload: &Vec<u8>) -> (r: Vec<u8>)
    requires
        head_bytes <= file.len(),
    ensures
        r@ == file@.subrange(0, head_bytes as int) + payload@,
{
    let mut r: Vec<u8> = Vec::new();
    let mut i: usize = 0;
    while i < head_bytes
        invariant
            i <= head_bytes <= file.len(),
            r@ == file@.subrange(0, i as int),
        decreases head_bytes - i,
    {
        r.push(file[i]);
        proof {
            assert(r@ =~= file@.subrange(0, i + 1));
        }
        i += 1;
    }
    r.extend_from_slice(payload.as_slice());
    proof {
        assert(r@ =~= file@.subrange(0, head_bytes as int) + payload@);
    }
    r
}

/// How two files compare.
#[derive(Debug, Clone, Copy, PartialEq, Eq, Structural)]
pub enum DumpVerdict {
    Same,
    /// The first byte that differs.
    FirstDifference(usize),
    /// One file goes on where the other ends.
    LengthDiffers,
}

/// Compares the two files.
pub fn compare_files(a: &Vec<u8>, b: &Vec<u8>) -> (r: DumpVerdict)
    ensures
        match r {
            DumpVerdict::Same => a@ == b@,
            DumpVerdict::FirstDifference(i) => i < a.len() && i < b.len() && a@[i as int]
                != b@[i as int] && a@.subrange(0, i as int) == b@.subrange(0, i as int),
            DumpVerdict::LengthDiffers => a.len() != b.len() && forall|k: int|
                0 <= k < a.len() && k < b.len() ==> #[trigger] a@[k] == b@[k],
        },
{
    let mut i: usize = 0;
    while i < a.len() && i < b.len()
        invariant
            i <= a.len(),
            i <= b.len(),
            forall|k: int| 0 <= k < i ==> #[trigger] a@[k] == b@[k],
        decreases a.len() - i,
    {
        if a[i] != b[i] {
            proof {
                assert(a@.subrange(0, i as int) =~= b@.subrange(0, i as int));
            }
            return DumpVerdict::FirstDifference(i);
        }
        i += 1;
    }
    if a.len() == b.len() {
        proof {
            assert(a@ =~= b@);
        }
        DumpVerdict::Same
    } else {
        DumpVerdict::LengthDiffers
    }
}

impl Dump {
    /// Bytes of the file: the words, lowest byte first.
    pub fn file(&self) -> (r: Vec<u8>)
        requires
            4 * self.words.len() <= usize::MAX,
        ensures
            super::volumes::bytes_of(r@, self.words@, 0, self.words.len() as int),
    {
        words_to_bytes(&self.words, 0, self.words.len())
    }
}

} // verus!
