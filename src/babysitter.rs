use vstd::prelude::*;

verus! {

/// An hourly rate that applies until the hour `hour_rate_ends`.
#[derive(Copy, Clone)]
pub struct Rate {
    pub hourly_rate: u32,
    pub hour_rate_ends: u32,
}

/// An hour on a clock that runs past midnight: the small hours up to four
/// belong to the next day.
pub open spec fn next_day_hour(hour: u32) -> int {
    if hour <= 4 { hour + 24 } else { hour as int }
}

/// A shift may neither start nor end in the daytime window.
pub open spec fn valid_shift_times(start_time: u32, end_time: u32) -> bool {
    !(4 < start_time < 17) && !(4 < end_time < 18)
}

/// `rates` with `r` placed after every rate that ends no later than it.
pub open spec fn insert_by_end(rates: Seq<Rate>, r: Rate) -> Seq<Rate>
    decreases rates.len(),
{
    if rates.len() == 0 {
        seq![r]
    } else if next_day_hour(r.hour_rate_ends) < next_day_hour(rates[0].hour_rate_ends) {
        seq![r] + rates
    } else {
        seq![rates[0]] + insert_by_end(rates.drop_first(), r)
    }
}

/// `rates` in ascending order of their end hour; rates that end at the same
/// hour keep their order.
pub open spec fn sorted_by_end(rates: Seq<Rate>) -> Seq<Rate>
    decreases rates.len(),
{
    if rates.len() == 0 {
        Seq::empty()
    } else {
        insert_by_end(sorted_by_end(rates.drop_last()), rates.last())
    }
}

/// The pay for the hours from `current` up to `end`, each rate of `rates`
/// in turn paying from where the previous one stopped until its own end.
pub open spec fn pay_from(current: int, end: int, rates: Seq<Rate>) -> int
    decreases rates.len(),
{
    if rates.len() == 0 {
        0
    } else {
        let stop = if next_day_hour(rates[0].hour_rate_ends) < end {
            next_day_hour(rates[0].hour_rate_ends)
        } else {
            end
        };
        rates[0].hourly_rate * (stop - current) + pay_from(stop, end, rates.drop_first())
    }
}

/// Whether `rates`, taken in turn from `current`, cover every hour up to
/// `end`, none of them ending before the hour where it takes over.
pub open spec fn rates_cover(current: int, end: int, rates: Seq<Rate>) -> bool
    decreases rates.len(),
{
    if rates.len() == 0 {
        end <= current
    } else {
        let stop = if next_day_hour(rates[0].hour_rate_ends) < end {
            next_day_hour(rates[0].hour_rate_ends)
        } else {
            end
        };
        current <= stop && rates_cover(stop, end, rates.drop_first())
    }
}

/// The pay for a shift from `start_time` to `end_time` under `rates`.
pub open spec fn total_payment(start_time: u32, end_time: u32, rates: Seq<Rate>) -> int {
    pay_from(next_day_hour(start_time), next_day_hour(end_time), sorted_by_end(rates))
}

/// Whether `rates` cover the shift from `start_time` to `end_time`.
pub open spec fn shift_covered(start_time: u32, end_time: u32, rates: Seq<Rate>) -> bool {
    rates_cover(next_day_hour(start_time), next_day_hour(end_time), sorted_by_end(rates))
}

proof fn lemma_pay_nonnegative(current: int, end: int, rates: Seq<Rate>)
    requires
        rates_cover(current, end, rates),
    ensures
        pay_from(current, end, rates) >= 0,
    decreases rates.len(),
{
    if rates.len() > 0 {
        let stop = if next_day_hour(rates[0].hour_rate_ends) < end {
            next_day_hour(rates[0].hour_rate_ends)
        } else {
            end
        };
        lemma_pay_nonnegative(stop, end, rates.drop_first());
        assert(rates[0].hourly_rate * (stop - current) >= 0) by (nonlinear_arith)
            requires
                current <= stop,
        ;
    }
}

proof fn lemma_insert_at(rates: Seq<Rate>, r: Rate, p: int)
    requires
        0 <= p <= rates.len(),
        forall|j: int| 0 <= j < p ==> next_day_hour(#[trigger] rates[j].hour_rate_ends)
            <= next_day_hour(r.hour_rate_ends),
        p < rates.len() ==> next_day_hour(r.hour_rate_ends) < next_day_hour(rates[p].hour_rate_ends),
    ensures
        insert_by_end(rates, r) == rates.insert(p, r),
    decreases p,
{
    if rates.len() == 0 {
        assert(rates.insert(p, r) =~= seq![r]);
    } else if p == 0 {
        assert(rates.insert(p, r) =~= seq![r] + rates);
    } else {
        let rest = rates.drop_first();
        assert forall|j: int| 0 <= j < p - 1 implies next_day_hour(#[trigger] rest[j].hour_rate_ends)
            <= next_day_hour(r.hour_rate_ends) by {
            assert(rest[j] == rates[j + 1]);
        }
        lemma_insert_at(rest, r, p - 1);
        assert(rates.insert(p, r) =~= seq![rates[0]] + rest.insert(p - 1, r));
    }
}

fn hour_including_next_day(hour: u32) -> (r: u32)
    ensures
        r == next_day_hour(hour),
{
    if hour <= 4 { hour + 24 } else { hour }
}

/// The rates in ascending order of their end hour, ties kept in order.
fn sort_rates_by_end_time(rates: &[Rate]) -> (r: Vec<Rate>)
    ensures
        r@ == sorted_by_end(rates@),
{
    let mut sorted: Vec<Rate> = Vec::new();
    let mut i: usize = 0;
    while i < rates.len()
        invariant
            i <= rates.len(),
            sorted@ == sorted_by_end(rates@.take(i as int)),
        decreases rates.len() - i,
    {
        let r = rates[i];
        let key = hour_including_next_day(r.hour_rate_ends);
        let mut p: usize = 0;
        while p < sorted.len() && hour_including_next_day(sorted[p].hour_rate_ends) <= key
            invariant
                p <= sorted.len(),
                key == next_day_hour(r.hour_rate_ends),
                forall|j: int| 0 <= j < p ==> next_day_hour(#[trigger] sorted@[j].hour_rate_ends)
                    <= key,
            decreases sorted.len() - p,
        {
            p = p + 1;
        }
        proof {
            lemma_insert_at(sorted@, r, p as int);
            assert(rates@.take(i + 1).drop_last() =~= rates@.take(i as int));
        }
        sorted.insert(p, r);
        i = i + 1;
    }
    proof {
        assert(rates@.take(rates.len() as int) =~= rates@);
    }
    sorted
}

/// The pay for a shift from `start_time` to `end_time`: the rates, in
/// ascending order of their end hour, each pay from where the previous one
/// stopped until their end or the end of the shift.
pub fn calculate_total_sitter_payment(start_time: u32, end_time: u32, rates: &[Rate]) -> (r: u32)
    requires
        valid_shift_times(start_time, end_time),
        shift_covered(start_time, end_time, rates@),
        total_payment(start_time, end_time, rates@) <= u32::MAX,
    ensures
        r == total_payment(start_time, end_time, rates@),
{
    let sorted_rates = sort_rates_by_end_time(rates);
    let end = hour_including_next_day(end_time);
    let mut current_hour = hour_including_next_day(start_time);
    let mut current_pay: u32 = 0;
    let mut i: usize = 0;
    proof {
        assert(sorted_rates@.skip(0) =~= sorted_rates@);
    }
    while i < sorted_rates.len()
        invariant
            i <= sorted_rates.len(),
            end == next_day_hour(end_time),
            sorted_rates@ == sorted_by_end(rates@),
            rates_cover(current_hour as int, end as int, sorted_rates@.skip(i as int)),
            current_pay + pay_from(current_hour as int, end as int, sorted_rates@.skip(i as int))
                == total_payment(start_time, end_time, rates@),
            total_payment(start_time, end_time, rates@) <= u32::MAX,
        decreases sorted_rates.len() - i,
    {
        let rate = sorted_rates[i];
        let rate_end = hour_including_next_day(rate.hour_rate_ends);
        let effective_rate_end = if rate_end < end { rate_end } else { end };
        proof {
            let rest = sorted_rates@.skip(i as int);
            assert(rest.drop_first() =~= sorted_rates@.skip(i + 1));
            lemma_pay_nonnegative(effective_rate_end as int, end as int, rest.drop_first());
        }
        current_pay = current_pay + rate.hourly_rate * (effective_rate_end - current_hour);
        current_hour = effective_rate_end;
        i = i + 1;
    }
    proof {
        assert(sorted_rates@.skip(i as int) =~= Seq::<Rate>::empty());
    }
    current_pay
}

} // verus!
