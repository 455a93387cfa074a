//! Pages of a list of results.
use crate::text::views;
use vstd::prelude::*;

verus! {

/// The part of a list of `total` items that a page shows: it starts at
/// `offset`, or at the end where the list is shorter, and holds `limit`
/// items, or those that are left.
pub open spec fn page_range(total: int, offset: int, limit: Option<usize>) -> (int, int) {
    let start = if offset < total {
        offset
    } else {
        total
    };
    let end = match limit {
        Some(n) => if start + n < total {
            start + n
        } else {
            total
        },
        None => total,
    };
    (start, end)
}

/// Computes `page_range`.
pub fn page_bounds(total: usize, offset: usize, limit: Option<usize>) -> (bounds: (usize, usize))
    ensures
        (bounds.0 as int, bounds.1 as int) == page_range(total as int, offset as int, limit),
        bounds.0 <= bounds.1 <= total,
{
    let start = if offset < total {
        offset
    } else {
        total
    };
    let end = match limit {
        Some(n) => if n < total - start {
            start + n
        } else {
            total
        },
        None => total,
    };
    (start, end)
}

/// The page of `ids` that `offset` and `limit` select.
pub fn page_of(ids: &[String], offset: usize, limit: Option<usize>) -> (page: Vec<String>)
    ensures
        views(page@) == views(ids@).subrange(
            page_range(ids@.len() as int, offset as int, limit).0,
            page_range(ids@.len() as int, offset as int, limit).1,
        ),
{
    let (start, end) = page_bounds(ids.len(), offset, limit);
    let mut page: Vec<String> = Vec::new();
    let mut i: usize = start;
    while i < end
        invariant
            start <= i <= end <= ids@.len(),
            page@.len() == i - start,
            forall|j: int| 0 <= j < i - start ==> (#[trigger] page@[j])@ == ids@[start + j]@,
        decreases end - i,
    {
        page.push(ids[i].clone());
        i = i + 1;
    }
    assert(views(page@) =~= views(ids@).subrange(start as int, end as int));
    page
}

} // verus!
