//! Stateless windowing over any sequence a catalog view produces.
//!
//! Pagination never re-orders: it skips `page * page_size` elements and
//! takes up to `page_size`, whatever ordering the caller established.

use vstd::prelude::*;

verus! {

/// The window a page selects from a sequence: skip `page * page_size`
/// elements, then take up to `page_size`. Out-of-range pages select the
/// empty window at the end of the sequence.
pub open spec fn page_window<T>(s: Seq<T>, page: int, page_size: int) -> Seq<T> {
    let start = if page * page_size <= s.len() {
        page * page_size
    } else {
        s.len() as int
    };
    let end = if start + page_size <= s.len() {
        start + page_size
    } else {
        s.len() as int
    };
    s.subrange(start, end)
}

/// The page-size a deployment uses when a request names none.
pub fn default_page_size() -> (n: usize)
    ensures
        n == 24,
{
    24
}

/// A validated pagination request: `page` counts from zero, `page_size`
/// is at least one.
pub struct Pagination {
    pub page: usize,
    pub page_size: usize,
}

impl Pagination {
    /// Windows the given items to this request's page.
    pub fn apply<T>(&self, items: Vec<T>) -> (r: Vec<T>)
        ensures
            r@ == page_window(items@, self.page as int, self.page_size as int),
    {
        let mut items = items;
        let ghost orig = items@;
        let len = items.len();
        let start: usize = match self.page.checked_mul(self.page_size) {
            Some(s) => {
                if s <= len {
                    s
                } else {
                    len
                }
            },
            None => {
                proof {
                    assert(self.page * self.page_size > usize::MAX >= len) by (nonlinear_arith)
                        requires
                            self.page.checked_mul(self.page_size) is None,
                            len <= usize::MAX,
                    ;
                }
                len
            },
        };
        let mut tail = items.split_off(start);
        tail.truncate(self.page_size);
        proof {
            assert(tail@ =~= page_window(orig, self.page as int, self.page_size as int));
        }
        tail
    }
}

/// The concatenation of the first `pages` pages of `s`, in order.
pub open spec fn pages_concat<T>(s: Seq<T>, page_size: int, pages: int) -> Seq<T>
    decreases pages,
{
    if pages <= 0 {
        Seq::empty()
    } else {
        pages_concat(s, page_size, pages - 1) + page_window(s, pages - 1, page_size)
    }
}

/// The first `pages` pages together are exactly the prefix of `s` they
/// cover: no gaps, no duplicates.
pub proof fn lemma_pages_concat_prefix<T>(s: Seq<T>, page_size: int, pages: int)
    requires
        page_size >= 1,
        pages >= 0,
    ensures
        pages_concat(s, page_size, pages) == s.subrange(
            0,
            if pages * page_size <= s.len() {
                pages * page_size
            } else {
                s.len() as int
            },
        ),
    decreases pages,
{
    if pages > 0 {
        lemma_pages_concat_prefix(s, page_size, pages - 1);
        assert((pages - 1) * page_size == pages * page_size - page_size) by (nonlinear_arith);
        assert(pages * page_size >= page_size >= 1) by (nonlinear_arith)
            requires
                pages >= 1,
                page_size >= 1,
        ;
        let prev = if (pages - 1) * page_size <= s.len() {
            (pages - 1) * page_size
        } else {
            s.len() as int
        };
        let cur = if pages * page_size <= s.len() {
            pages * page_size
        } else {
            s.len() as int
        };
        assert(s.subrange(0, prev) + page_window(s, pages - 1, page_size) =~= s.subrange(0, cur));
    } else {
        assert(pages_concat(s, page_size, pages) =~= s.subrange(0, 0));
    }
}

/// Pagination is exhaustive: once every element is covered, concatenating
/// all pages in order reproduces the unpaginated sequence exactly.
pub proof fn lemma_pages_exhaustive<T>(s: Seq<T>, page_size: int, pages: int)
    requires
        page_size >= 1,
        pages >= 0,
        pages * page_size >= s.len(),
    ensures
        pages_concat(s, page_size, pages) == s,
{
    lemma_pages_concat_prefix(s, page_size, pages);
    assert(s.subrange(0, s.len() as int) =~= s);
}

/// Re-applying pagination to a page with the same page size returns the
/// page unchanged: a page is a fixed point of windowing.
pub proof fn lemma_page_fixpoint<T>(s: Seq<T>, page: int, page_size: int)
    requires
        page >= 0,
        page_size >= 1,
    ensures
        page_window(page_window(s, page, page_size), 0, page_size) == page_window(
            s,
            page,
            page_size,
        ),
{
    let w = page_window(s, page, page_size);
    assert(page * page_size >= 0) by (nonlinear_arith)
        requires
            page >= 0,
            page_size >= 1,
    ;
    assert(w.len() <= page_size);
    assert(page_window(w, 0, page_size) =~= w);
}

} // verus!
