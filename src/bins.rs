use vstd::prelude::*;

verus! {

/// The ordered storage of a histogram's bins, kept in the `linked_list`
/// crate's doubly linked list. Each item is `(sum, count)`: the exact sum
/// of the samples folded into the bin and how many there are.
#[verifier::external_body]
pub struct BinList {
    list: linked_list::LinkedList<(i128, u64)>,
}

/// What the list holds, front to back.
pub uninterp spec fn bin_items(l: BinList) -> Seq<(i128, u64)>;

/// The first `k` items of `s` with the `remove` items at `start` replaced by
/// `item`, as they stand after `k` steps of `BinList::splice`.
pub open spec fn splice_prefix(
    s: Seq<(i128, u64)>,
    start: int,
    remove: int,
    item: (i128, u64),
    k: int,
) -> Seq<(i128, u64)> {
    if k <= start {
        s.subrange(0, k)
    } else if k <= start + remove {
        s.subrange(0, start).push(item)
    } else {
        s.subrange(0, start).push(item) + s.subrange(start + remove, k)
    }
}

/// `s` with the `remove` items at `start` replaced by `item`.
pub open spec fn spliced(s: Seq<(i128, u64)>, start: int, remove: int, item: (i128, u64)) -> Seq<
    (i128, u64),
> {
    s.subrange(0, start).push(item) + s.subrange(start + remove, s.len() as int)
}

impl BinList {
    /// Relies on `LinkedList::new`: a new list is empty.
    #[verifier::external_body]
    pub fn new() -> (r: BinList)
        ensures
            bin_items(r) == Seq::<(i128, u64)>::empty(),
    {
        BinList { list: linked_list::LinkedList::new() }
    }

    /// Relies on `LinkedList::len`: the number of items.
    #[verifier::external_body]
    pub fn len(&self) -> (r: usize)
        ensures
            r == bin_items(*self).len(),
    {
        self.list.len()
    }

    /// Relies on `LinkedList::push_back`: the item goes to the back.
    #[verifier::external_body]
    pub fn push_back(&mut self, item: (i128, u64))
        ensures
            bin_items(*final(self)) == bin_items(*old(self)).push(item),
    {
        self.list.push_back(item)
    }

    /// Relies on `LinkedList::pop_front`: the front item is taken out, or
    /// nothing happens on an empty list.
    #[verifier::external_body]
    pub fn pop_front(&mut self) -> (r: Option<(i128, u64)>)
        ensures
            bin_items(*old(self)).len() == 0 ==> r.is_none() && bin_items(*final(self)) == bin_items(*old(self)),
            bin_items(*old(self)).len() > 0 ==> r == Some(bin_items(*old(self))[0])
                && bin_items(*final(self)) == bin_items(*old(self)).drop_first(),
    {
        self.list.pop_front()
    }

    /// Replaces the `remove` items at `start` by the single `item`, walking
    /// the list once from front to back.
    pub fn splice(&mut self, start: usize, remove: usize, item: (i128, u64))
        requires
            start + remove <= bin_items(*old(self)).len(),
        ensures
            bin_items(*final(self)) == spliced(bin_items(*old(self)), start as int, remove as int, item),
    {
        let ghost orig = bin_items(*self);
        let n = self.len();
        let mut out = BinList::new();
        let mut k: usize = 0;
        while k < n
            invariant
                n == orig.len(),
                start + remove <= n,
                k <= n,
                bin_items(*self) == orig.subrange(k as int, n as int),
                bin_items(out) == splice_prefix(orig, start as int, remove as int, item, k as int),
            decreases n - k,
        {
            let ghost before = bin_items(out);
            let popped = self.pop_front();
            assert(orig.subrange(k as int, n as int).drop_first() =~= orig.subrange(k + 1, n as int));
            let x = match popped {
                Some(x) => x,
                None => item,
            };
            assert(x == orig[k as int]);
            if k == start {
                out.push_back(item);
            }
            if k < start || k >= start + remove {
                out.push_back(x);
            }
            assert(bin_items(out) =~= splice_prefix(orig, start as int, remove as int, item, k + 1));
            k = k + 1;
        }
        if start == n {
            out.push_back(item);
        }
        assert(bin_items(out) =~= spliced(orig, start as int, remove as int, item));
        *self = out;
    }

    /// Relies on `LinkedList::iter`: it walks the items front to back.
    #[verifier::external_body]
    pub fn to_vec(&self) -> (r: Vec<(i128, u64)>)
        ensures
            r@ == bin_items(*self),
    {
        self.list.iter().copied().collect()
    }
}

} // verus!
