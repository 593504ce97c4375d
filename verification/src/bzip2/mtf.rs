use vstd::prelude::*;

verus! {

/// The list after the entry at `i` has been moved to its front.
pub open spec fn move_to_front(list: Seq<usize>, i: int) -> Seq<usize> {
    seq![list[i]] + list.remove(i)
}

/// `i` is the position of the first occurrence of `value` in `list`.
pub open spec fn is_first_index(list: Seq<usize>, value: usize, i: int) -> bool {
    &&& 0 <= i < list.len()
    &&& list[i] == value
    &&& forall|j: int| 0 <= j < i ==> list[j] != value
}

/// The move-to-front encoder: maps a value to its position in a list of
/// recently seen values and moves it to the front.
pub struct MtfPosition {
    data: Vec<usize>,
}

impl View for MtfPosition {
    type V = Seq<usize>;

    closed spec fn view(&self) -> Seq<usize> {
        self.data@
    }
}

impl MtfPosition {
    /// Starts with the list `0, 1, ..., count - 1`.
    pub fn new(count: usize) -> (r: Self)
        ensures
            r@ == Seq::new(count as nat, |i: int| i as usize),
    {
        let mut data: Vec<usize> = Vec::with_capacity(count);
        let mut i: usize = 0;
        while i < count
            invariant
                i <= count,
                data@ == Seq::new(i as nat, |j: int| j as usize),
            decreases count - i,
        {
            data.push(i);
            i += 1;
        }
        Self { data }
    }

    /// Returns the position of `value` and moves it to the front.
    pub fn pop(&mut self, value: usize) -> (r: usize)
        requires
            old(self)@.contains(value),
        ensures
            is_first_index(old(self)@, value, r as int),
            final(self)@ == move_to_front(old(self)@, r as int),
    {
        let ghost old_data = self.data@;
        if value == self.data[0] {
            assert(move_to_front(old_data, 0) =~= old_data);
            return 0;
        }
        let mut t = self.data[0];
        self.data.set(0, value);
        let len = self.data.len();
        let mut i: usize = 1;
        while i < len
            invariant
                1 <= i <= len,
                old_data == old(self)@,
                len == old_data.len(),
                t == old_data[i - 1],
                self.data@ =~= seq![value] + old_data.subrange(0, i - 1) + old_data.subrange(i as int, len as int),
                forall|j: int| 0 <= j < i ==> old_data[j] != value,
            decreases len - i,
        {
            let d = self.data[i];
            self.data.set(i, t);
            t = d;
            if t == value {
                assert(self.data@ =~= move_to_front(old_data, i as int));
                return i;
            }
            i += 1;
        }
        proof {
            let k = choose|k: int| 0 <= k < old_data.len() && old_data[k] == value;
            assert(old_data[k] != value);
        }
        0
    }
}

/// The move-to-front decoder: maps a position back to the value found there
/// and moves that value to the front.
pub struct MtfPositionDecoder {
    data: Vec<usize>,
}

impl View for MtfPositionDecoder {
    type V = Seq<usize>;

    closed spec fn view(&self) -> Seq<usize> {
        self.data@
    }
}

impl MtfPositionDecoder {
    /// Starts with the list `0, 1, ..., count - 1`.
    pub fn new(count: usize) -> (r: Self)
        ensures
            r@ == Seq::new(count as nat, |i: int| i as usize),
    {
        let mut data: Vec<usize> = Vec::with_capacity(count);
        let mut i: usize = 0;
        while i < count
            invariant
                i <= count,
                data@ == Seq::new(i as nat, |j: int| j as usize),
            decreases count - i,
        {
            data.push(i);
            i += 1;
        }
        Self { data }
    }

    /// Returns the value at position `value` and moves it to the front.
    pub fn pop(&mut self, value: usize) -> (r: usize)
        requires
            value < old(self)@.len(),
        ensures
            r == old(self)@[value as int],
            final(self)@ == move_to_front(old(self)@, value as int),
    {
        let ghost old_data = self.data@;
        if value == 0 {
            assert(move_to_front(old_data, 0) =~= old_data);
            return self.data[0];
        }
        let t = self.data[value];
        let mut j: usize = value;
        while j > 0
            invariant
                j <= value,
                value < old_data.len(),
                self.data@ =~= old_data.subrange(0, j + 1) + old_data.subrange(j as int, value as int)
                    + old_data.subrange(value + 1, old_data.len() as int),
            decreases j,
        {
            let d = self.data[j - 1];
            self.data.set(j, d);
            j -= 1;
        }
        self.data.set(0, t);
        assert(self.data@ =~= move_to_front(old_data, value as int));
        t
    }
}

/// Moving an entry to the front keeps every entry below `bound` when all
/// were.
pub proof fn lemma_mtf_bound(list: Seq<usize>, pos: int, bound: usize)
    requires
        0 <= pos < list.len(),
        forall|i: int| 0 <= i < list.len() ==> #[trigger] list[i] < bound,
    ensures
        move_to_front(list, pos).len() == list.len(),
        forall|i: int| 0 <= i < list.len() ==> #[trigger] move_to_front(list, pos)[i] < bound,
{
    let m = move_to_front(list, pos);
    assert forall|i: int| 0 <= i < list.len() implies #[trigger] m[i] < bound by {
        if i > 0 {
            let j = if i - 1 < pos { i - 1 } else { i };
            assert(m[i] == list[j]);
        }
    }
}

/// Move-to-front coding is lossless: when the encoder and the decoder hold
/// the same list, decoding the position that the encoder gives for `value`
/// yields `value` again, and both move the same entry to the front, so their
/// lists stay equal; the list keeps the same entries.
pub proof fn lemma_mtf_round_trip(list: Seq<usize>, value: usize, pos: int)
    requires
        is_first_index(list, value, pos),
    ensures
        list[pos] == value,
        move_to_front(list, pos).to_multiset() =~= list.to_multiset(),
        move_to_front(list, pos).len() == list.len(),
{
    broadcast use vstd::seq_lib::group_to_multiset_ensures;
    let rest = list.remove(pos);
    assert(list =~= list.subrange(0, pos) + seq![list[pos]] + list.subrange(pos + 1, list.len() as int));
    assert(rest =~= list.subrange(0, pos) + list.subrange(pos + 1, list.len() as int));
    vstd::seq_lib::lemma_multiset_commutative(seq![list[pos]], rest);
    vstd::seq_lib::lemma_multiset_commutative(list.subrange(0, pos) + seq![list[pos]], list.subrange(pos + 1, list.len() as int));
    vstd::seq_lib::lemma_multiset_commutative(list.subrange(0, pos), seq![list[pos]]);
    vstd::seq_lib::lemma_multiset_commutative(list.subrange(0, pos), list.subrange(pos + 1, list.len() as int));
}

} // verus!
