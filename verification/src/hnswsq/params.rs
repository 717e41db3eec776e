//! Parameters of the graph.
use vstd::prelude::*;

verus! {

/// How many neighbors an element has at most at layer `lc`: twice as many at
/// the bottom as above.
pub open spec fn layer_m(m: int, lc: int) -> int {
    if lc == 0 {
        2 * m
    } else {
        m
    }
}

/// How many neighbors an element has at most at layer `lc`.
pub fn get_layer_m(m: usize, lc: usize) -> (lm: usize)
    requires
        m <= usize::MAX / 2,
    ensures
        lm == layer_m(m as int, lc as int),
{
    if lc == 0 {
        m * 2
    } else {
        m
    }
}

/// The bytes of a stored address.
pub const TID_BYTES: usize = 6;

/// The highest level there is.
pub const TOP_LEVEL: usize = 63;

/// The largest level whose neighbors still fit an item of `max_item_size`
/// bytes, of which `header_size` are the header.
pub open spec fn max_level(max_item_size: int, header_size: int, m: int) -> int {
    let fitting = (max_item_size - header_size) / 6 / m - 2;
    if fitting < 0 {
        0
    } else if fitting > 63 {
        63
    } else {
        fitting
    }
}

/// The largest level whose neighbors still fit an item.
pub fn get_max_level(max_item_size: usize, header_size: usize, m: usize) -> (level: usize)
    requires
        header_size <= max_item_size,
        m > 0,
    ensures
        level == max_level(max_item_size as int, header_size as int, m as int),
{
    let per_page: usize = (max_item_size - header_size) / TID_BYTES;
    let layers: usize = per_page / m;
    proof {
        vstd::arithmetic::div_mod::lemma_div_pos_is_pos(per_page as int, m as int);
    }
    let fitting: usize = if layers < 2 {
        0
    } else {
        layers - 2
    };
    if fitting > TOP_LEVEL {
        TOP_LEVEL
    } else {
        fitting
    }
}

/// The neighbors of an element of any level up to the largest one fit an
/// item.
pub proof fn law_neighbors_fit(max_item_size: int, header_size: int, m: int, level: int)
    requires
        0 <= header_size,
        m > 0,
        (max_item_size - header_size) / 6 / m >= 2,
        0 <= level <= max_level(max_item_size, header_size, m),
    ensures
        header_size + 6 * ((level + 2) * m) <= max_item_size,
{
    let per_page = (max_item_size - header_size) / 6;
    let layers = per_page / m;
    assert(level + 2 <= layers);
    vstd::arithmetic::div_mod::lemma_fundamental_div_mod(per_page, m);
    assert((level + 2) * m <= per_page) by (nonlinear_arith)
        requires
            level + 2 <= layers,
            m > 0,
            m * layers <= per_page,
    ;
}

/// The highest level is the highest of which the neighbors still fit on a page, up
/// to 63; it is 0 where not even those of level 0 do.
pub proof fn law_no_higher_level_fits(max_item_size: int, header_size: int, m: int, level: int)
    requires
        0 <= header_size,
        m > 0,
        max_level(max_item_size, header_size, m) < level <= 63,
    ensures
        0 <= max_level(max_item_size, header_size, m) <= 63,
        header_size + 6 * ((level + 2) * m) > max_item_size,
{
    let per_page = (max_item_size - header_size) / 6;
    let layers = per_page / m;
    assert(level + 2 > layers);
    vstd::arithmetic::div_mod::lemma_fundamental_div_mod(per_page, m);
    assert((level + 2) * m > per_page) by (nonlinear_arith)
        requires
            level + 2 > layers,
            m > 0,
            per_page == m * layers + per_page % m,
            per_page % m < m,
    ;
}

} // verus!
