//! The filters that a row can have been put through.
use vstd::prelude::*;

verus! {

/// How the bytes of a row were predicted from their neighbours.
#[derive(Clone, Copy, Debug, PartialEq, Eq, Structural)]
pub enum FilterType {
    NoFilter,
    Sub,
    Up,
    Avg,
    Paeth,
}

/// The filter that a byte at the start of a row names.
pub open spec fn filter_type_of(code: u8) -> Option<FilterType> {
    if code == 0 {
        Some(FilterType::NoFilter)
    } else if code == 1 {
        Some(FilterType::Sub)
    } else if code == 2 {
        Some(FilterType::Up)
    } else if code == 3 {
        Some(FilterType::Avg)
    } else if code == 4 {
        Some(FilterType::Paeth)
    } else {
        None
    }
}

impl FilterType {
    /// The filter that a byte at the start of a row names, if there is one.
    pub fn from_u8(code: u8) -> (filter: Option<FilterType>)
        ensures
            filter == filter_type_of(code),
    {
        match code {
            0 => Some(FilterType::NoFilter),
            1 => Some(FilterType::Sub),
            2 => Some(FilterType::Up),
            3 => Some(FilterType::Avg),
            4 => Some(FilterType::Paeth),
            _ => None,
        }
    }
}

/// The distance of two integers.
pub open spec fn distance(a: int, b: int) -> int {
    if a < b {
        b - a
    } else {
        a - b
    }
}

/// Of the bytes to the left, above, and above to the left, the one that is closest to
/// `left + above - corner`, in this order where several are.
pub open spec fn paeth_spec(left: u8, above: u8, corner: u8) -> u8 {
    let estimate = left + above - corner;
    let to_left = distance(estimate, left as int);
    let to_above = distance(estimate, above as int);
    let to_corner = distance(estimate, corner as int);
    if to_left <= to_above && to_left <= to_corner {
        left
    } else if to_above <= to_corner {
        above
    } else {
        corner
    }
}

/// What a filter predicts a byte to be from its neighbours.
pub open spec fn predicted(filter: FilterType, left: u8, above: u8, corner: u8) -> u8 {
    match filter {
        FilterType::NoFilter => 0,
        FilterType::Sub => left,
        FilterType::Up => above,
        FilterType::Avg => ((left + above) / 2) as u8,
        FilterType::Paeth => paeth_spec(left, above, corner),
    }
}

/// The sum of two bytes, modulo 256.
pub open spec fn byte_sum(a: u8, b: u8) -> u8 {
    ((a + b) % 256) as u8
}

/// The byte `back` places before position `i`, and zero before the start.
pub open spec fn byte_before(bytes: Seq<u8>, i: int, back: int) -> u8 {
    if i >= back {
        bytes[i - back]
    } else {
        0
    }
}

/// `row` is what the bytes `filtered` were made from, where `previous` is the row above and a
/// pixel takes `bpp` bytes: each byte is what was predicted of it plus what was stored.
pub open spec fn is_unfiltered(
    filter: FilterType,
    bpp: int,
    previous: Seq<u8>,
    filtered: Seq<u8>,
    row: Seq<u8>,
) -> bool {
    &&& row.len() == filtered.len()
    &&& forall|i: int| #![trigger row[i]] 0 <= i < row.len() ==> row[i] == byte_sum(
        filtered[i],
        predicted(
            filter,
            byte_before(row, i, bpp),
            previous[i],
            byte_before(previous, i, bpp),
        ),
    )
}

/// The row that the bytes `filtered` were made from.
pub open spec fn unfiltered(
    filter: FilterType,
    bpp: int,
    previous: Seq<u8>,
    filtered: Seq<u8>,
) -> Seq<u8>
    decreases filtered.len(),
{
    if filtered.len() == 0 {
        Seq::empty()
    } else {
        let row = unfiltered(filter, bpp, previous, filtered.drop_last());
        let i = filtered.len() - 1;
        row.push(
            byte_sum(
                filtered[i],
                predicted(
                    filter,
                    byte_before(row, i, bpp),
                    previous[i],
                    byte_before(previous, i, bpp),
                ),
            ),
        )
    }
}

/// [`unfiltered`] is the one row that [`is_unfiltered`] describes.
pub proof fn lemma_unfiltered(
    filter: FilterType,
    bpp: int,
    previous: Seq<u8>,
    filtered: Seq<u8>,
    row: Seq<u8>,
)
    requires
        bpp >= 1,
    ensures
        is_unfiltered(filter, bpp, previous, filtered, row) <==> row == unfiltered(
            filter,
            bpp,
            previous,
            filtered,
        ),
    decreases filtered.len(),
{
    let whole = unfiltered(filter, bpp, previous, filtered);
    if filtered.len() == 0 {
        if row.len() == 0 {
            assert(row =~= whole);
        }
    } else {
        let start = unfiltered(filter, bpp, previous, filtered.drop_last());
        let i = filtered.len() - 1;
        lemma_unfiltered(filter, bpp, previous, filtered.drop_last(), start);
        assert(whole.drop_last() =~= start);
        assert forall|j: int| #![trigger whole[j]] 0 <= j < whole.len() implies whole[j]
            == byte_sum(
            filtered[j],
            predicted(
                filter,
                byte_before(whole, j, bpp),
                previous[j],
                byte_before(previous, j, bpp),
            ),
        ) by {
            if j < i {
                assert(whole[j] == start[j]);
            }
        }
        if is_unfiltered(filter, bpp, previous, filtered, row) {
            let front = row.drop_last();
            assert forall|j: int| #![trigger front[j]] 0 <= j < front.len() implies front[j]
                == byte_sum(
                filtered.drop_last()[j],
                predicted(
                    filter,
                    byte_before(front, j, bpp),
                    previous[j],
                    byte_before(previous, j, bpp),
                ),
            ) by {
                assert(row[j] == front[j]);
            }
            lemma_unfiltered(filter, bpp, previous, filtered.drop_last(), front);
            assert(front == start);
            assert(row =~= start.push(row[i]));
            if i >= bpp {
                assert(row[i - bpp] == start[i - bpp]);
            }
            assert(row =~= whole);
        }
    }
}

/// A row is as long as the bytes that it was filtered into.
pub proof fn lemma_unfiltered_len(
    filter: FilterType,
    bpp: int,
    previous: Seq<u8>,
    filtered: Seq<u8>,
)
    ensures
        unfiltered(filter, bpp, previous, filtered).len() == filtered.len(),
    decreases filtered.len(),
{
    if filtered.len() > 0 {
        lemma_unfiltered_len(filter, bpp, previous, filtered.drop_last());
    }
}

/// The difference of two bytes, modulo 256.
pub open spec fn byte_difference(a: u8, b: u8) -> u8 {
    ((a - b) % 256) as u8
}

/// The bytes that a row is filtered into: each byte less what is predicted of it.
pub open spec fn filtered(
    filter: FilterType,
    bpp: int,
    previous: Seq<u8>,
    row: Seq<u8>,
) -> Seq<u8> {
    Seq::new(
        row.len(),
        |i: int|
            byte_difference(
                row[i],
                predicted(
                    filter,
                    byte_before(row, i, bpp),
                    previous[i],
                    byte_before(previous, i, bpp),
                ),
            ),
    )
}

/// A row comes out as it was before it was filtered.
pub proof fn lemma_filter_round_trip(
    filter: FilterType,
    bpp: int,
    previous: Seq<u8>,
    row: Seq<u8>,
)
    requires
        bpp >= 1,
    ensures
        unfiltered(filter, bpp, previous, filtered(filter, bpp, previous, row)) == row,
{
    lemma_unfiltered(filter, bpp, previous, filtered(filter, bpp, previous, row), row);
}

/// The Paeth predictor.
fn paeth(left: u8, above: u8, corner: u8) -> (byte: u8)
    ensures
        byte == paeth_spec(left, above, corner),
{
    let estimate: i32 = left as i32 + above as i32 - corner as i32;
    let to_left: i32 = apart(estimate, left as i32);
    let to_above: i32 = apart(estimate, above as i32);
    let to_corner: i32 = apart(estimate, corner as i32);
    if to_left <= to_above && to_left <= to_corner {
        left
    } else if to_above <= to_corner {
        above
    } else {
        corner
    }
}

/// The distance of two small integers.
fn apart(a: i32, b: i32) -> (d: i32)
    requires
        -1000 <= a <= 1000,
        -1000 <= b <= 1000,
    ensures
        d == distance(a as int, b as int),
{
    if a < b {
        b - a
    } else {
        a - b
    }
}

/// Undoes a filter in place, from position `start` of `current` on: the bytes of the row above
/// lie in `previous` at the same positions.
pub fn unfilter(
    filter: FilterType,
    bpp: usize,
    previous: &[u8],
    current: &mut Vec<u8>,
    start: usize,
)
    requires
        bpp >= 1,
        previous@.len() == old(current)@.len(),
        start <= old(current)@.len(),
    ensures
        final(current)@ == old(current)@.take(start as int) + unfiltered(
            filter,
            bpp as int,
            previous@.skip(start as int),
            old(current)@.skip(start as int),
        ),
{
    let ghost filtered = current@.skip(start as int);
    let ghost above = previous@.skip(start as int);
    let ghost front = current@.take(start as int);
    let mut i: usize = start;
    while i < current.len()
        invariant
            bpp >= 1,
            start <= i <= current@.len(),
            previous@.len() == current@.len(),
            filtered.len() == current@.len() - start,
            above == previous@.skip(start as int),
            front.len() == start,
            front == current@.take(start as int),
            current@.subrange(start as int, i as int) == unfiltered(
                filter,
                bpp as int,
                above,
                filtered.take(i - start),
            ),
            forall|j: int| i <= j < current@.len() ==> current@[j] == filtered[j - start],
        decreases current@.len() - i,
    {
        let inside = i - start >= bpp;
        let left: u8 = if inside { current[i - bpp] } else { 0 };
        let corner: u8 = if inside { previous[i - bpp] } else { 0 };
        let prediction: u8 = match filter {
            FilterType::NoFilter => 0,
            FilterType::Sub => left,
            FilterType::Up => previous[i],
            FilterType::Avg => ((left as u16 + previous[i] as u16) / 2) as u8,
            FilterType::Paeth => paeth(left, previous[i], corner),
        };
        let ghost row = current@.subrange(start as int, i as int);
        let ghost k = i - start;
        proof {
            assert(filtered.take(k + 1).drop_last() =~= filtered.take(k));
            assert(filtered.take(k + 1)[k] == filtered[k]);
            if inside {
                assert(row[k - bpp] == current@[i - bpp]);
                assert(above[k - bpp] == previous@[i - bpp]);
            }
            assert(above[k] == previous@[i as int]);
            assert(prediction == predicted(
                filter,
                byte_before(row, k, bpp as int),
                above[k],
                byte_before(above, k, bpp as int),
            ));
        }
        let sum: u8 = ((current[i] as u16 + prediction as u16) % 256) as u8;
        current[i] = sum;
        proof {
            assert(current@.subrange(start as int, i + 1) =~= row.push(sum));
            assert(front =~= current@.take(start as int));
        }
        i = i + 1;
    }
    proof {
        assert(filtered.take(filtered.len() as int) =~= filtered);
        assert(current@ =~= front + current@.subrange(start as int, i as int));
    }
}

} // verus!
