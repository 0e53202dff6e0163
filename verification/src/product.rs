//! The cartesian product of the fields, addressed by index.
//!
//! A combination takes one candidate from each field. The combinations are
//! numbered from zero in the order of an odometer: the last field changes
//! with every step, the first one most slowly.

use vstd::prelude::*;
use vstd::arithmetic::div_mod::{
    lemma_breakdown, lemma_div_denominator, lemma_div_pos_is_pos, lemma_fundamental_div_mod,
    lemma_fundamental_div_mod_converse, lemma_mod_bound,
};
use vstd::seq_lib::lemma_flatten_concat;
use vstd::string::StringExecFns;
use crate::error::GenError;
use crate::text::{all_texts, lemma_texts_push, texts};

verus! {

/// The number of candidates of each field.
pub open spec fn sizes(fields: Seq<Seq<Seq<char>>>) -> Seq<int> {
    Seq::new(fields.len(), |k: int| fields[k].len() as int)
}

/// Some field has no candidate.
pub open spec fn has_empty(fields: Seq<Seq<Seq<char>>>) -> bool {
    exists|k: int| 0 <= k < fields.len() && #[trigger] fields[k].len() == 0
}

/// The product of the entries of `sizes`; 1 where there is none.
pub open spec fn product(sizes: Seq<int>) -> int
    decreases sizes.len(),
{
    if sizes.len() == 0 {
        1
    } else {
        product(sizes.drop_last()) * sizes.last()
    }
}

/// The digits of `index` in the mixed radix `sizes`, the last one being the
/// least significant: one position into each field.
pub open spec fn digits(sizes: Seq<int>, index: int) -> Seq<int>
    decreases sizes.len(),
{
    if sizes.len() == 0 {
        Seq::empty()
    } else {
        digits(sizes.drop_last(), index / sizes.last()).push(index % sizes.last())
    }
}

/// The number whose digits in the mixed radix `sizes` are `picks`.
pub open spec fn number(sizes: Seq<int>, picks: Seq<int>) -> int
    decreases sizes.len(),
{
    if sizes.len() == 0 {
        0
    } else {
        number(sizes.drop_last(), picks.drop_last()) * sizes.last() + picks.last()
    }
}

/// `picks` holds one valid position for each entry of `sizes`.
pub open spec fn valid_digits(sizes: Seq<int>, picks: Seq<int>) -> bool {
    &&& picks.len() == sizes.len()
    &&& forall|k: int| 0 <= k < sizes.len() ==> 0 <= #[trigger] picks[k] < sizes[k]
}

/// The candidates that `picks` selects, one from each field.
pub open spec fn selection(fields: Seq<Seq<Seq<char>>>, picks: Seq<int>) -> Seq<Seq<char>> {
    Seq::new(fields.len(), |k: int| fields[k][picks[k]])
}

/// The combination with the given index.
pub open spec fn combination(fields: Seq<Seq<Seq<char>>>, index: int) -> Seq<Seq<char>> {
    selection(fields, digits(sizes(fields), index))
}

/// Whether a field set can be enumerated, and if not, why.
pub open spec fn refusal(fields: Seq<Seq<Seq<char>>>) -> Option<GenError> {
    if has_empty(fields) {
        Some(GenError::EmptyField)
    } else if product(sizes(fields)) > u128::MAX {
        Some(GenError::CountOverflow)
    } else {
        None
    }
}

/// There is one digit for each radix.
pub proof fn lemma_digits_len(sizes: Seq<int>, index: int)
    ensures
        digits(sizes, index).len() == sizes.len(),
    decreases sizes.len(),
{
    if sizes.len() > 0 {
        lemma_digits_len(sizes.drop_last(), index / sizes.last());
    }
}

/// With positive radices every digit is a valid position.
pub proof fn lemma_digits_valid(sizes: Seq<int>, index: int)
    requires
        forall|k: int| 0 <= k < sizes.len() ==> #[trigger] sizes[k] > 0,
    ensures
        valid_digits(sizes, digits(sizes, index)),
    decreases sizes.len(),
{
    if sizes.len() > 0 {
        let init = sizes.drop_last();
        assert forall|k: int| 0 <= k < init.len() implies #[trigger] init[k] > 0 by {
            assert(init[k] == sizes[k]);
        }
        lemma_digits_valid(init, index / sizes.last());
        lemma_mod_bound(index, sizes.last());
    }
}

/// A product of positive numbers is positive, and no smaller than the product
/// of the first `k` of them.
pub proof fn lemma_product_grows(sizes: Seq<int>, k: int)
    requires
        forall|j: int| 0 <= j < sizes.len() ==> #[trigger] sizes[j] > 0,
        0 <= k <= sizes.len(),
    ensures
        product(sizes.take(k)) >= 1,
        product(sizes) >= product(sizes.take(k)),
    decreases sizes.len() - k,
{
    lemma_product_positive(sizes.take(k));
    if k == sizes.len() {
        assert(sizes.take(k) == sizes);
    } else {
        lemma_product_grows(sizes, k + 1);
        assert(sizes.take(k + 1).drop_last() == sizes.take(k));
        assert(sizes.take(k + 1).last() == sizes[k]);
        let shorter = product(sizes.take(k));
        let factor = sizes[k];
        assert(shorter * factor >= shorter) by (nonlinear_arith)
            requires
                shorter >= 1,
                factor >= 1,
        ;
    }
}

/// A product of positive numbers is positive.
pub proof fn lemma_product_positive(sizes: Seq<int>)
    requires
        forall|j: int| 0 <= j < sizes.len() ==> #[trigger] sizes[j] > 0,
    ensures
        product(sizes) >= 1,
    decreases sizes.len(),
{
    if sizes.len() > 0 {
        let init = sizes.drop_last();
        assert forall|j: int| 0 <= j < init.len() implies #[trigger] init[j] > 0 by {
            assert(init[j] == sizes[j]);
        }
        lemma_product_positive(init);
        let shorter = product(init);
        let factor = sizes.last();
        assert(shorter * factor >= 1) by (nonlinear_arith)
            requires
                shorter >= 1,
                factor >= 1,
        ;
    }
}

/// The digits of an index below the product give the index back: no two
/// such indices have the same digits.
pub proof fn lemma_number_of_digits(sizes: Seq<int>, index: int)
    requires
        forall|k: int| 0 <= k < sizes.len() ==> #[trigger] sizes[k] > 0,
        0 <= index < product(sizes),
    ensures
        number(sizes, digits(sizes, index)) == index,
    decreases sizes.len(),
{
    if sizes.len() > 0 {
        let init = sizes.drop_last();
        let size = sizes.last();
        assert forall|k: int| 0 <= k < init.len() implies #[trigger] init[k] > 0 by {
            assert(init[k] == sizes[k]);
        }
        let shorter = product(init);
        lemma_fundamental_div_mod(index, size);
        lemma_mod_bound(index, size);
        assert(0 <= index / size < shorter) by (nonlinear_arith)
            requires
                0 <= index < shorter * size,
                size > 0,
                index == size * (index / size) + index % size,
                0 <= index % size < size,
        ;
        lemma_number_of_digits(init, index / size);
        let all = digits(init, index / size).push(index % size);
        assert(all.drop_last() == digits(init, index / size));
        assert(number(sizes, all) == (index / size) * size + index % size);
        assert((index / size) * size == size * (index / size)) by (nonlinear_arith);
    }
}

/// Valid digits are the digits of their number, which is below the product:
/// every choice of one position in each field has an index.
pub proof fn lemma_digits_of_number(sizes: Seq<int>, picks: Seq<int>)
    requires
        valid_digits(sizes, picks),
    ensures
        0 <= number(sizes, picks) < product(sizes),
        digits(sizes, number(sizes, picks)) == picks,
    decreases sizes.len(),
{
    if sizes.len() == 0 {
        assert(picks == Seq::<int>::empty());
    } else {
        let init = sizes.drop_last();
        let size = sizes.last();
        let last = picks.last();
        assert(valid_digits(init, picks.drop_last())) by {
            assert forall|k: int| 0 <= k < init.len() implies 0 <= #[trigger] picks.drop_last()[k]
                < init[k] by {
                assert(picks.drop_last()[k] == picks[k]);
                assert(init[k] == sizes[k]);
            }
        }
        lemma_digits_of_number(init, picks.drop_last());
        let upper = number(init, picks.drop_last());
        let value = upper * size + last;
        assert(0 <= last < size);
        assert(0 <= value < product(init) * size) by (nonlinear_arith)
            requires
                0 <= upper < product(init),
                0 <= last < size,
                value == upper * size + last,
        ;
        lemma_fundamental_div_mod_converse(value, size, upper, last);
        assert(digits(sizes, value) == digits(init, upper).push(last));
        assert(picks.drop_last().push(last) == picks);
    }
}

/// Each digit by its weight: the digit for field `k` is the index divided by
/// the product of the sizes to the right of `k`, modulo the size of `k`. So
/// the last field changes with every step and the first one most slowly.
pub proof fn lemma_digit_by_weight(sizes: Seq<int>, index: int, k: int)
    requires
        forall|j: int| 0 <= j < sizes.len() ==> #[trigger] sizes[j] > 0,
        0 <= index,
        0 <= k < sizes.len(),
    ensures
        product(sizes.skip(k + 1)) > 0,
        digits(sizes, index)[k] == (index / product(sizes.skip(k + 1))) % sizes[k],
    decreases sizes.len(),
{
    let init = sizes.drop_last();
    let size = sizes.last();
    let right = sizes.skip(k + 1);
    assert forall|j: int| 0 <= j < right.len() implies #[trigger] right[j] > 0 by {
        assert(right[j] == sizes[k + 1 + j]);
    }
    lemma_product_positive(right);
    lemma_digits_len(init, index / size);
    if k == sizes.len() - 1 {
        assert(right.len() == 0);
        assert(product(right) == 1);
    } else {
        assert forall|j: int| 0 <= j < init.len() implies #[trigger] init[j] > 0 by {
            assert(init[j] == sizes[j]);
        }
        lemma_div_pos_is_pos(index, size);
        lemma_digit_by_weight(init, index / size, k);
        let inner = product(init.skip(k + 1));
        assert(right.drop_last() == init.skip(k + 1));
        assert(right.last() == size);
        assert(product(right) == inner * size);
        lemma_div_denominator(index, size, inner);
        assert(size * inner == inner * size) by (nonlinear_arith);
        assert(init[k] == sizes[k]);
    }
}

/// The digits of an index are those of the index modulo the product: past
/// the last combination the enumeration starts again.
pub proof fn lemma_digits_wrap(sizes: Seq<int>, index: int)
    requires
        forall|k: int| 0 <= k < sizes.len() ==> #[trigger] sizes[k] > 0,
        0 <= index,
    ensures
        product(sizes) > 0,
        digits(sizes, index % product(sizes)) == digits(sizes, index),
    decreases sizes.len(),
{
    lemma_product_positive(sizes);
    if sizes.len() > 0 {
        let init = sizes.drop_last();
        let size = sizes.last();
        let shorter = product(init);
        assert forall|k: int| 0 <= k < init.len() implies #[trigger] init[k] > 0 by {
            assert(init[k] == sizes[k]);
        }
        lemma_product_positive(init);
        lemma_breakdown(index, size, shorter);
        assert(shorter * size == size * shorter) by (nonlinear_arith);
        let wrapped = index % product(sizes);
        let upper = (index / size) % shorter;
        lemma_mod_bound(index, size);
        assert(wrapped == upper * size + index % size) by (nonlinear_arith)
            requires
                wrapped == size * upper + index % size,
        ;
        lemma_fundamental_div_mod_converse(wrapped, size, upper, index % size);
        lemma_div_pos_is_pos(index, size);
        lemma_digits_wrap(init, index / size);
    }
}

/// Two indices below the total give different combinations, where no field
/// names a candidate twice.
pub proof fn lemma_combinations_differ(fields: Seq<Seq<Seq<char>>>, i: int, j: int)
    requires
        !has_empty(fields),
        forall|k: int| 0 <= k < fields.len() ==> (#[trigger] fields[k]).no_duplicates(),
        0 <= i < product(sizes(fields)),
        0 <= j < product(sizes(fields)),
        i != j,
    ensures
        combination(fields, i) != combination(fields, j),
{
    let radices = sizes(fields);
    assert forall|k: int| 0 <= k < radices.len() implies #[trigger] radices[k] > 0 by {
        assert(fields[k].len() != 0);
    }
    lemma_number_of_digits(radices, i);
    lemma_number_of_digits(radices, j);
    lemma_digits_valid(radices, i);
    lemma_digits_valid(radices, j);
    let di = digits(radices, i);
    let dj = digits(radices, j);
    if di =~= dj {
        assert(false);
    }
    let k = choose|k: int| 0 <= k < radices.len() && di[k] != dj[k];
    assert(0 <= di[k] < radices[k] && 0 <= dj[k] < radices[k]);
    assert(fields[k][di[k]] != fields[k][dj[k]]);
    assert(combination(fields, i)[k] == fields[k][di[k]]);
    assert(combination(fields, j)[k] == fields[k][dj[k]]);
}

/// Every choice of one candidate from each field is the combination of an
/// index below the total.
pub proof fn lemma_selection_has_index(fields: Seq<Seq<Seq<char>>>, picks: Seq<int>)
    requires
        valid_digits(sizes(fields), picks),
    ensures
        0 <= number(sizes(fields), picks) < product(sizes(fields)),
        combination(fields, number(sizes(fields), picks)) == selection(fields, picks),
{
    lemma_digits_of_number(sizes(fields), picks);
}

/// An engine over a set of fields, none of them empty, whose combinations can
/// be counted in 128 bits.
pub struct ProductEngine {
    fields: Vec<Vec<String>>,
    total: u128,
}

impl View for ProductEngine {
    type V = Seq<Seq<Seq<char>>>;

    /// The candidates of each field, as text.
    closed spec fn view(&self) -> Seq<Seq<Seq<char>>> {
        all_texts(self.fields@)
    }
}

impl ProductEngine {
    #[verifier::type_invariant]
    spec fn well_formed(self) -> bool {
        &&& !has_empty(all_texts(self.fields@))
        &&& self.total == product(sizes(all_texts(self.fields@)))
    }

    /// Takes a field set over for enumeration.
    ///
    /// Fails with `EmptyField` where a field has no candidate, and otherwise
    /// with `CountOverflow` where the number of combinations exceeds 128 bits.
    pub fn new(field_set: Vec<Vec<String>>) -> (result: Result<ProductEngine, GenError>)
        ensures
            match refusal(all_texts(field_set@)) {
                Some(e) => result matches Err(x) && x == e,
                None => result matches Ok(engine) && engine@ == all_texts(field_set@),
            },
    {
        let ghost fields = all_texts(field_set@);
        let n = field_set.len();
        let mut k: usize = 0;
        while k < n
            invariant
                n == field_set.len(),
                fields == all_texts(field_set@),
                k <= n,
                forall|j: int| 0 <= j < k ==> #[trigger] fields[j].len() > 0,
            decreases n - k,
        {
            if field_set[k].len() == 0 {
                assert(fields[k as int].len() == 0);
                return Err(GenError::EmptyField);
            }
            k = k + 1;
        }
        assert(!has_empty(fields));
        let ghost radices = sizes(fields);
        let mut total: u128 = 1;
        let mut k: usize = 0;
        assert(radices.take(0) == Seq::<int>::empty());
        while k < n
            invariant
                n == field_set.len(),
                fields == all_texts(field_set@),
                radices == sizes(fields),
                !has_empty(fields),
                forall|j: int| 0 <= j < n ==> #[trigger] radices[j] > 0,
                k <= n,
                total == product(radices.take(k as int)),
            decreases n - k,
        {
            proof {
                assert(radices.take(k + 1).drop_last() == radices.take(k as int));
                assert(radices.take(k + 1).last() == field_set[k as int].len());
                assert(product(radices.take(k + 1)) == total * field_set[k as int].len());
                lemma_product_grows(radices, k + 1);
            }
            match total.checked_mul(field_set[k].len() as u128) {
                None => {
                    return Err(GenError::CountOverflow);
                },
                Some(more) => {
                    total = more;
                },
            }
            k = k + 1;
        }
        assert(radices.take(n as int) == radices);
        Ok(ProductEngine { fields: field_set, total })
    }

    /// The number of combinations.
    pub fn total(&self) -> (count: u128)
        ensures
            count == product(sizes(self@)),
            !has_empty(self@),
    {
        proof {
            use_type_invariant(self);
        }
        self.total
    }

    /// The position in each field of the combination with the given index.
    fn picks(&self, index: u128) -> (picks: Vec<usize>)
        ensures
            picks.len() == self.fields.len(),
            forall|k: int|
                0 <= k < picks.len() ==> #[trigger] picks[k] == digits(sizes(self@), index as int)[k],
            forall|k: int| 0 <= k < picks.len() ==> #[trigger] picks[k] < self.fields[k].len(),
    {
        proof {
            use_type_invariant(self);
        }
        let n = self.fields.len();
        let ghost radices = sizes(self@);
        let ghost all = digits(radices, index as int);
        proof {
            assert forall|j: int| 0 <= j < radices.len() implies #[trigger] radices[j] > 0 by {
                assert(all_texts(self.fields@)[j].len() > 0);
            }
            lemma_digits_valid(radices, index as int);
        }
        let mut picks: Vec<usize> = Vec::new();
        while picks.len() < n
            invariant
                picks.len() <= n,
            decreases n - picks.len(),
        {
            picks.push(0);
        }
        let mut rest = index;
        let mut k = n;
        assert(radices.take(n as int) == radices);
        assert(all.take(n as int) == all);
        while k > 0
            invariant
                n == self.fields.len(),
                radices == sizes(self@),
                self@ == all_texts(self.fields@),
                forall|j: int| 0 <= j < n ==> #[trigger] radices[j] > 0,
                all == digits(radices, index as int),
                all.len() == n,
                picks.len() == n,
                k <= n,
                digits(radices.take(k as int), rest as int) == all.take(k as int),
                forall|j: int| k <= j < n ==> #[trigger] picks[j] == all[j],
            decreases k,
        {
            let size = self.fields[k - 1].len() as u128;
            proof {
                let head = radices.take(k as int);
                assert(head.drop_last() == radices.take(k - 1));
                assert(head.last() == radices[k - 1]);
                assert(radices[k - 1] == size);
                let shorter = digits(radices.take(k - 1), rest as int / size as int);
                lemma_digits_len(radices.take(k - 1), rest as int / size as int);
                assert(all.take(k as int)[k - 1] == rest as int % size as int);
                assert(all.take(k as int).drop_last() == shorter);
                assert(all.take(k as int).drop_last() == all.take(k - 1));
                lemma_mod_bound(rest as int, size as int);
            }
            picks.set(k - 1, (rest % size) as usize);
            rest = rest / size;
            k = k - 1;
        }
        proof {
            assert forall|j: int| 0 <= j < picks.len() implies #[trigger] picks[j]
                < self.fields[j].len() by {
                assert(0 <= all[j] < radices[j]);
            }
        }
        picks
    }

    /// The combination with the given index: one candidate of each field, in
    /// field order. An index of `total()` or more gives the combination of
    /// that index modulo `total()`.
    pub fn decode(&self, index: u128) -> (chosen: Vec<String>)
        ensures
            texts(chosen@) == combination(self@, index as int),
    {
        let picks = self.picks(index);
        let n = self.fields.len();
        let ghost wanted = combination(self@, index as int);
        let mut chosen: Vec<String> = Vec::new();
        let mut k: usize = 0;
        while k < n
            invariant
                n == self.fields.len(),
                n == picks.len(),
                self@ == all_texts(self.fields@),
                wanted == combination(self@, index as int),
                forall|j: int|
                    0 <= j < n ==> #[trigger] picks[j] == digits(sizes(self@), index as int)[j],
                forall|j: int| 0 <= j < n ==> #[trigger] picks[j] < self.fields[j].len(),
                k <= n,
                texts(chosen@) == wanted.take(k as int),
            decreases n - k,
        {
            let candidate = self.fields[k][picks[k]].clone();
            proof {
                lemma_texts_push(chosen@, candidate);
                assert(wanted.take(k as int).push(candidate@) == wanted.take(k + 1));
            }
            chosen.push(candidate);
            k = k + 1;
        }
        assert(wanted.take(n as int) == wanted);
        chosen
    }

    /// The word with the given index: the candidates of its combination, one
    /// after the other.
    pub fn word(&self, index: u128) -> (word: String)
        ensures
            word@ == combination(self@, index as int).flatten(),
    {
        let picks = self.picks(index);
        let n = self.fields.len();
        let ghost wanted = combination(self@, index as int);
        let mut word = String::new();
        let mut k: usize = 0;
        assert(wanted.take(0).flatten() == Seq::<char>::empty());
        while k < n
            invariant
                n == self.fields.len(),
                n == picks.len(),
                self@ == all_texts(self.fields@),
                wanted == combination(self@, index as int),
                forall|j: int|
                    0 <= j < n ==> #[trigger] picks[j] == digits(sizes(self@), index as int)[j],
                forall|j: int| 0 <= j < n ==> #[trigger] picks[j] < self.fields[j].len(),
                k <= n,
                word@ == wanted.take(k as int).flatten(),
            decreases n - k,
        {
            let candidate = &self.fields[k][picks[k]];
            proof {
                let head = wanted.take(k as int);
                let one = seq![candidate@];
                assert(head + one == wanted.take(k + 1));
                lemma_flatten_concat(head, one);
                one.lemma_flatten_one_element();
            }
            word.append(candidate.as_str());
            k = k + 1;
        }
        assert(wanted.take(n as int) == wanted);
        word
    }
}

} // verus!
