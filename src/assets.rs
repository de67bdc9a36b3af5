use vstd::prelude::*;

verus! {

/// Which entry of a palette of `palette_len` colors shows the bomb counter
/// `counter`: entry `counter - 1` (entry 0 for a counter of 0), or the last
/// entry when the palette is shorter; `None` for an empty palette, where the
/// caller falls back to its default color.
pub fn bomb_color_index(counter: u8, palette_len: usize) -> (r: Option<usize>)
    ensures
        palette_len == 0 ==> r is None,
        palette_len > 0 ==> r == Some(
            if counter == 0 {
                0usize
            } else if (counter - 1) < palette_len {
                (counter - 1) as usize
            } else {
                (palette_len - 1) as usize
            },
        ),
{
    let index = counter.saturating_sub(1) as usize;
    if index < palette_len {
        Some(index)
    } else if palette_len > 0 {
        Some(palette_len - 1)
    } else {
        None
    }
}

} // verus!
