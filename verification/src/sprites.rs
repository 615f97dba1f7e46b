//! Cutting the pixels of a sprite sheet into the pixels of its sprites.
//!
//! A sheet is read band by band. Each band is read strip by strip, and the
//! strips are dealt to the sprites of the band in turn.

use vstd::prelude::*;

verus! {

/// The first `size` bytes of `s`, or all of `s` where it has no more.
pub open spec fn head(s: Seq<u8>, size: int) -> Seq<u8> {
    if s.len() <= size {
        s
    } else {
        s.subrange(0, size)
    }
}

/// What is left of `s` behind its first `size` bytes.
pub open spec fn tail(s: Seq<u8>, size: int) -> Seq<u8> {
    if s.len() <= size {
        Seq::empty()
    } else {
        s.subrange(size, s.len() as int)
    }
}

/// Whose turn it is after `turn`, among `count` sprites.
pub open spec fn next_turn(turn: int, count: int) -> int {
    if turn + 1 >= count {
        0
    } else {
        turn + 1
    }
}

/// The bytes of `band` that fall to sprite `j` when the strips of the band
/// are dealt to `count` sprites in turn and the first strip goes to `turn`.
pub open spec fn dealt(band: Seq<u8>, strip: int, count: int, j: int, turn: int) -> Seq<u8>
    decreases band.len(),
{
    if band.len() == 0 || strip <= 0 {
        Seq::empty()
    } else {
        let first = if turn == j {
            head(band, strip)
        } else {
            Seq::empty()
        };
        first + dealt(tail(band, strip), strip, count, j, next_turn(turn, count))
    }
}

/// The sprites of one band.
pub open spec fn band_sprites(band: Seq<u8>, strip: int, count: int) -> Seq<Seq<u8>> {
    Seq::new(count as nat, |j: int| dealt(band, strip, count, j, 0))
}

/// The sprites of a sheet: those of its first band, then those of the next,
/// and so on. The last band may be short.
pub open spec fn sheet_sprites(pixels: Seq<u8>, band: int, strip: int, count: int) -> Seq<
    Seq<u8>,
>
    decreases pixels.len(),
{
    if pixels.len() == 0 || band <= 0 {
        Seq::empty()
    } else {
        band_sprites(head(pixels, band), strip, count) + sheet_sprites(
            tail(pixels, band),
            band,
            strip,
            count,
        )
    }
}

/// The pixels of each sprite, as a mathematical value.
pub open spec fn sprite_views(sprites: Seq<Vec<u8>>) -> Seq<Seq<u8>> {
    Seq::new(sprites.len(), |k: int| sprites[k]@)
}

/// Deals the strips of `pixels[start..end]` to `count` sprites in turn.
fn deal_band(pixels: &Vec<u8>, start: usize, end: usize, strip: usize, count: usize) -> (sprites:
    Vec<Vec<u8>>)
    requires
        start <= end <= pixels@.len(),
        strip > 0,
        count > 0,
    ensures
        sprite_views(sprites@) == band_sprites(
            pixels@.subrange(start as int, end as int),
            strip as int,
            count as int,
        ),
{
    let ghost band = pixels@.subrange(start as int, end as int);
    let mut sprites: Vec<Vec<u8>> = Vec::new();
    let mut j: usize = 0;
    while j < count
        invariant
            j <= count,
            sprites@.len() == j,
            forall|i: int| 0 <= i < j ==> (#[trigger] sprites@[i])@ == Seq::<u8>::empty(),
        decreases count - j,
    {
        sprites.push(Vec::new());
        j += 1;
    }
    let mut at: usize = start;
    let mut turn: usize = 0;
    assert(pixels@.subrange(at as int, end as int) == band);
    while at < end
        invariant
            start <= at <= end <= pixels@.len(),
            strip > 0,
            turn < count,
            sprites@.len() == count,
            band == pixels@.subrange(start as int, end as int),
            forall|j: int|
                0 <= j < count ==> dealt(band, strip as int, count as int, j, 0) == (
                #[trigger] sprites@[j])@ + dealt(
                    pixels@.subrange(at as int, end as int),
                    strip as int,
                    count as int,
                    j,
                    turn as int,
                ),
        decreases end - at,
    {
        let stop: usize = if end - at > strip {
            at + strip
        } else {
            end
        };
        let ghost rest = pixels@.subrange(at as int, end as int);
        let ghost held = sprite_views(sprites@);
        let mut p: usize = at;
        while p < stop
            invariant
                at <= p <= stop <= end <= pixels@.len(),
                turn < count,
                sprites@.len() == count,
                sprites@[turn as int]@ == held[turn as int] + pixels@.subrange(
                    at as int,
                    p as int,
                ),
                forall|j: int|
                    0 <= j < count && j != turn ==> (#[trigger] sprites@[j])@ == held[j],
            decreases stop - p,
        {
            let byte: u8 = pixels[p];
            let ghost so_far = sprites@[turn as int]@;
            sprites[turn].push(byte);
            assert(so_far.push(byte) =~= held[turn as int] + pixels@.subrange(
                at as int,
                p + 1,
            ));
            p += 1;
        }
        proof {
            assert(head(rest, strip as int) =~= pixels@.subrange(at as int, stop as int));
            assert(tail(rest, strip as int) =~= pixels@.subrange(stop as int, end as int));
            assert forall|j: int| 0 <= j < count implies dealt(
                band,
                strip as int,
                count as int,
                j,
                0,
            ) == (#[trigger] sprites@[j])@ + dealt(
                pixels@.subrange(stop as int, end as int),
                strip as int,
                count as int,
                j,
                next_turn(turn as int, count as int),
            ) by {
                let later = dealt(
                    tail(rest, strip as int),
                    strip as int,
                    count as int,
                    j,
                    next_turn(turn as int, count as int),
                );
                if j == turn {
                    assert(held[j] + (head(rest, strip as int) + later) =~= (held[j] + head(
                        rest,
                        strip as int,
                    )) + later);
                } else {
                    assert(held[j] + (Seq::<u8>::empty() + later) =~= held[j] + later);
                }
            }
        }
        at = stop;
        turn = if turn + 1 >= count {
            0
        } else {
            turn + 1
        };
    }
    proof {
        assert forall|j: int| 0 <= j < count implies (#[trigger] sprites@[j])@ == dealt(
            band,
            strip as int,
            count as int,
            j,
            0,
        ) by {
            assert(sprites@[j]@ + Seq::<u8>::empty() =~= sprites@[j]@);
        }
        assert(sprite_views(sprites@) =~= band_sprites(band, strip as int, count as int));
    }
    sprites
}

/// Cuts the pixels of a sprite sheet into the pixels of its sprites. A band
/// of the sheet holds `horizontal_sprite_count` sprites and `sprite_width *
/// sprite_height * horizontal_sprite_count * 4` bytes. It is read in strips
/// of `sprite_width * horizontal_sprite_count` bytes, which go to the
/// sprites of the band in turn.
pub fn split_sprites(
    pixels: &Vec<u8>,
    sprite_width: usize,
    sprite_height: usize,
    horizontal_sprite_count: usize,
) -> (sprites: Vec<Vec<u8>>)
    requires
        sprite_width > 0,
        sprite_height > 0,
        horizontal_sprite_count > 0,
        sprite_width * sprite_height * horizontal_sprite_count * 4 <= usize::MAX,
    ensures
        sprite_views(sprites@) == sheet_sprites(
            pixels@,
            sprite_width * sprite_height * horizontal_sprite_count * 4,
            sprite_width * horizontal_sprite_count,
            horizontal_sprite_count as int,
        ),
{
    proof {
        lemma_sizes(sprite_width as int, sprite_height as int, horizontal_sprite_count as int);
    }
    let sprite_size: usize = sprite_width * sprite_height;
    let band: usize = sprite_size * horizontal_sprite_count * 4;
    let strip: usize = sprite_width * horizontal_sprite_count;
    let mut sprites: Vec<Vec<u8>> = Vec::new();
    let mut start: usize = 0;
    assert(pixels@.subrange(0, pixels@.len() as int) =~= pixels@);
    assert(sprite_views(sprites@) =~= Seq::<Seq<u8>>::empty());
    while start < pixels.len()
        invariant
            start <= pixels@.len(),
            band > 0,
            strip > 0,
            horizontal_sprite_count > 0,
            sheet_sprites(pixels@, band as int, strip as int, horizontal_sprite_count as int)
                == sprite_views(sprites@) + sheet_sprites(
                pixels@.subrange(start as int, pixels@.len() as int),
                band as int,
                strip as int,
                horizontal_sprite_count as int,
            ),
        decreases pixels@.len() - start,
    {
        let end: usize = if pixels.len() - start > band {
            start + band
        } else {
            pixels.len()
        };
        let ghost rest = pixels@.subrange(start as int, pixels@.len() as int);
        let ghost done = sprite_views(sprites@);
        let mut cut = deal_band(pixels, start, end, strip, horizontal_sprite_count);
        let ghost fresh = sprite_views(cut@);
        sprites.append(&mut cut);
        proof {
            assert(head(rest, band as int) =~= pixels@.subrange(start as int, end as int));
            assert(tail(rest, band as int) =~= pixels@.subrange(
                end as int,
                pixels@.len() as int,
            ));
            assert(sprite_views(sprites@) =~= done + fresh);
            let later = sheet_sprites(
                tail(rest, band as int),
                band as int,
                strip as int,
                horizontal_sprite_count as int,
            );
            assert(done + (fresh + later) =~= (done + fresh) + later);
        }
        start = end;
    }
    proof {
        assert(sprite_views(sprites@) + Seq::<Seq<u8>>::empty() =~= sprite_views(sprites@));
    }
    sprites
}

/// The sizes that are computed on the way fit where the size of a band fits.
proof fn lemma_sizes(width: int, height: int, count: int)
    requires
        width > 0,
        height > 0,
        count > 0,
    ensures
        0 < width * height <= width * height * count * 4,
        0 < width * height * count <= width * height * count * 4,
        0 < width * count <= width * height * count * 4,
{
    assert(0 < width * height) by (nonlinear_arith)
        requires
            width > 0,
            height > 0,
    ;
    assert(width * height <= width * height * count) by (nonlinear_arith)
        requires
            0 < width * height,
            count > 0,
    ;
    assert(width * count <= width * height * count) by (nonlinear_arith)
        requires
            width > 0,
            height > 0,
            count > 0,
    ;
    assert(0 < width * count) by (nonlinear_arith)
        requires
            width > 0,
            count > 0,
    ;
}

} // verus!
