//! Work orders and their activities, validated when they are made.

use crate::calendar::Date;
use crate::schedule_graph::Skill;
use vstd::prelude::*;

verus! {

pub type WorkOrderNumber = u64;

pub type ActivityNumber = u64;

/// Ten to the power `k`.
pub open spec fn pow10(k: nat) -> nat
    decreases k,
{
    if k == 0 {
        1
    } else {
        10 * pow10((k - 1) as nat)
    }
}

pub open spec fn digit_char(d: nat) -> char {
    seq!['0', '1', '2', '3', '4', '5', '6', '7', '8', '9'][d as int]
}

/// The canonical decimal form of `n`: most significant digit first, no
/// leading zero.
#[verifier::opaque]
pub open spec fn decimal_digits(n: nat) -> Seq<char>
    decreases n,
{
    if n < 10 {
        seq![digit_char(n)]
    } else {
        decimal_digits(n / 10).push(digit_char(n % 10))
    }
}

/// A work order number is valid when its decimal form has ten digits.
pub open spec fn valid_work_order_number(n: u64) -> bool {
    decimal_digits(n as nat).len() == 10
}

proof fn lemma_pow10_at_least_ten(k: nat)
    requires
        k >= 1,
    ensures
        pow10(k) >= 10,
    decreases k,
{
    reveal_with_fuel(pow10, 2);
    if k > 1 {
        lemma_pow10_at_least_ten((k - 1) as nat);
    }
}

/// A number has at most `k` decimal digits exactly when it is below `10^k`.
proof fn lemma_digit_count(n: nat, k: nat)
    requires
        k >= 1,
    ensures
        decimal_digits(n).len() <= k <==> n < pow10(k),
    decreases k,
{
    reveal(decimal_digits);
    if n >= 10 {
        assert(decimal_digits(n).len() == decimal_digits(n / 10).len() + 1);
        if k > 1 {
            lemma_digit_count(n / 10, (k - 1) as nat);
            lemma_pow10_at_least_ten((k - 1) as nat);
            let p = pow10((k - 1) as nat);
            assert(n / 10 < p <==> n < 10 * p) by (nonlinear_arith)
                requires
                    p >= 1,
            ;
        } else {
            assert(decimal_digits(n / 10).len() >= 1) by {
                reveal_with_fuel(decimal_digits, 2);
            }
            assert(decimal_digits(n).len() >= 2);
            assert(pow10(1) == 10) by {
                reveal_with_fuel(pow10, 2);
            }
        }
    } else {
        lemma_pow10_at_least_ten(k);
    }
}

proof fn lemma_ten_digits(n: u64)
    ensures
        valid_work_order_number(n) <==> (1_000_000_000 <= n && n <= 9_999_999_999),
{
    lemma_digit_count(n as nat, 10);
    lemma_digit_count(n as nat, 9);
    assert(pow10(9) == 1_000_000_000 && pow10(10) == 10_000_000_000) by {
        reveal_with_fuel(pow10, 11);
    }
}

/// Relies on `ToString` for `u64`, which writes the number in decimal.
#[verifier::external_body]
fn decimal_string(n: u64) -> (r: String)
    ensures
        r@ == decimal_digits(n as nat),
{
    n.to_string()
}

/// One step of a work order: its number and the skill it needs.
#[derive(Hash, Clone, Copy, Debug, PartialEq, Eq, Structural, PartialOrd, Ord)]
pub struct Activity {
    activity_number: ActivityNumber,
    resource: Skill,
}

impl Activity {
    pub closed spec fn spec_number(self) -> ActivityNumber {
        self.activity_number
    }

    pub closed spec fn spec_skill(self) -> Skill {
        self.resource
    }

    pub fn number(&self) -> (r: ActivityNumber)
        ensures
            r == self.spec_number(),
    {
        self.activity_number
    }

    pub fn skill(&self) -> (r: Skill)
        ensures
            r == self.spec_skill(),
    {
        self.resource
    }

    pub fn new(activity_number: u64, resource: Skill) -> (r: Self)
        ensures
            r.spec_number() == activity_number,
            r.spec_skill() == resource,
    {
        Self { activity_number, resource }
    }
}

/// The activity at `i` has a number no greater than the next one's.
pub open spec fn ordered_at(acts: Seq<Activity>, i: int) -> bool {
    acts[i].spec_number() <= acts[i + 1].spec_number()
}

/// The activity at `i` has a number below the next one's.
pub open spec fn strictly_ordered_at(acts: Seq<Activity>, i: int) -> bool {
    acts[i].spec_number() < acts[i + 1].spec_number()
}

/// Activity numbers never go down along the sequence.
pub open spec fn ascending_numbers(acts: Seq<Activity>) -> bool {
    forall|i: int| 0 <= i < acts.len() - 1 ==> #[trigger] ordered_at(acts, i)
}

/// Two activities of the sequence share a number.
pub open spec fn has_repeated_number(acts: Seq<Activity>) -> bool {
    exists|i: int, j: int|
        0 <= i < j < acts.len() && #[trigger] acts[i].spec_number() == #[trigger] acts[j].spec_number()
}

/// Activity numbers go strictly up along the sequence.
pub open spec fn strictly_ascending_numbers(acts: Seq<Activity>) -> bool {
    forall|i: int, j: int|
        0 <= i < j < acts.len() ==> #[trigger] acts[i].spec_number() < #[trigger] acts[j].spec_number()
}

/// Where neighbours go strictly up, so do any two activities in order.
proof fn lemma_strictly_ascending_pair(acts: Seq<Activity>, i: int, j: int)
    requires
        forall|k: int| 0 <= k < acts.len() - 1 ==> #[trigger] strictly_ordered_at(acts, k),
        0 <= i < j < acts.len(),
    ensures
        acts[i].spec_number() < acts[j].spec_number(),
    decreases j - i,
{
    assert(strictly_ordered_at(acts, i));
    if i + 1 < j {
        lemma_strictly_ascending_pair(acts, i + 1, j);
        assert(strictly_ordered_at(acts, i));
    }
}

proof fn lemma_strictly_ascending(acts: Seq<Activity>)
    requires
        forall|k: int| 0 <= k < acts.len() - 1 ==> #[trigger] strictly_ordered_at(acts, k),
    ensures
        strictly_ascending_numbers(acts),
{
    assert forall|i: int, j: int| 0 <= i < j < acts.len() implies #[trigger] acts[i].spec_number()
        < #[trigger] acts[j].spec_number() by {
        lemma_strictly_ascending_pair(acts, i, j);
    }
}

/// Why a work order could not be made.
#[derive(Debug)]
pub enum WorkOrderError {
    /// The number, in decimal, does not have ten digits.
    InvalidWorkOrderNumber(String),
    /// The activities are not in ascending order of number; they are handed back.
    NonSortedActivities(Vec<Activity>),
    /// Two activities share a number.
    DuplicatedActivities,
}

/// A work order: its number, the day it is anchored to, and its activities in
/// strictly ascending order of number.
pub struct WorkOrder {
    number: WorkOrderNumber,
    basic_start_date: Date,
    activities: Vec<Activity>,
}

impl WorkOrder {
    #[verifier::type_invariant]
    spec fn valid(self) -> bool {
        &&& valid_work_order_number(self.number)
        &&& strictly_ascending_numbers(self.activities@)
    }

    pub closed spec fn spec_number(self) -> WorkOrderNumber {
        self.number
    }

    pub closed spec fn spec_basic_start_date(self) -> Date {
        self.basic_start_date
    }

    pub closed spec fn spec_activities(self) -> Seq<Activity> {
        self.activities@
    }

    /// Makes a work order, checking first the number, then the order of the
    /// activities, then that no two of them share a number.
    pub fn new(number: WorkOrderNumber, basic_start_date: Date, activities: Vec<Activity>) -> (r:
        Result<Self, WorkOrderError>)
        ensures
            !valid_work_order_number(number) <==> r matches Err(
                WorkOrderError::InvalidWorkOrderNumber(_),
            ),
            r matches Err(WorkOrderError::InvalidWorkOrderNumber(s)) ==> s@ == decimal_digits(
                number as nat,
            ),
            (valid_work_order_number(number) && !ascending_numbers(activities@)) <==> r matches Err(
                WorkOrderError::NonSortedActivities(_),
            ),
            r matches Err(WorkOrderError::NonSortedActivities(v)) ==> v@ == activities@,
            (valid_work_order_number(number) && ascending_numbers(activities@) && has_repeated_number(
                activities@,
            )) <==> r matches Err(WorkOrderError::DuplicatedActivities),
            r matches Ok(w) ==> {
                &&& w.spec_number() == number
                &&& w.spec_basic_start_date() == basic_start_date
                &&& w.spec_activities() == activities@
                &&& w.spec_relations() == Seq::new(activities@.len(), |_i: int| ActivityRelation::FinishStart)
            },
    {
        proof {
            lemma_ten_digits(number);
        }
        if number < 1_000_000_000 || number > 9_999_999_999 {
            return Err(WorkOrderError::InvalidWorkOrderNumber(decimal_string(number)));
        }
        let n = activities.len();
        let mut i: usize = 1;
        while i < n
            invariant
                1 <= i <= n || n == 0,
                n == activities@.len(),
                valid_work_order_number(number),
                forall|k: int| 0 <= k < i - 1 && k < n - 1 ==> #[trigger] ordered_at(activities@, k),
            decreases n - i,
        {
            if activities[i - 1].number() > activities[i].number() {
                assert(!ordered_at(activities@, i - 1));
                return Err(WorkOrderError::NonSortedActivities(activities));
            }
            i += 1;
        }
        let mut i: usize = 1;
        while i < n
            invariant
                1 <= i <= n || n == 0,
                n == activities@.len(),
                valid_work_order_number(number),
                ascending_numbers(activities@),
                forall|k: int| 0 <= k < i - 1 && k < n - 1 ==> #[trigger] strictly_ordered_at(activities@, k),
            decreases n - i,
        {
            assert(ordered_at(activities@, i - 1));
            if activities[i - 1].number() == activities[i].number() {
                assert(activities@[i - 1].spec_number() == activities@[i as int].spec_number());
                return Err(WorkOrderError::DuplicatedActivities);
            }
            i += 1;
        }
        proof {
            lemma_strictly_ascending(activities@);
            assert(!has_repeated_number(activities@));
        }
        Ok(Self { number, activities, basic_start_date })
    }

    pub fn number(&self) -> (r: WorkOrderNumber)
        ensures
            r == self.spec_number(),
    {
        self.number
    }

    pub fn basic_start_date(&self) -> (r: Date)
        ensures
            r == self.spec_basic_start_date(),
    {
        self.basic_start_date
    }

    pub fn activities(&self) -> (r: &Vec<Activity>)
        ensures
            r@ == self.spec_activities(),
    {
        &self.activities
    }

    /// How each activity relates to the one after it: entry `i` is the
    /// relation between activities `i` and `i + 1`.
    pub closed spec fn spec_relations(self) -> Seq<ActivityRelation> {
        Seq::new(self.activities@.len(), |_i: int| ActivityRelation::FinishStart)
    }

    /// How each activity relates to the one after it: finish to start, for
    /// every pair.
    pub(crate) fn activities_relations(&self) -> (r: Vec<ActivityRelation>)
        ensures
            r@ == self.spec_relations(),
            r@.len() == self.spec_activities().len(),
    {
        let mut relations: Vec<ActivityRelation> = Vec::new();
        let mut i: usize = 0;
        while i < self.activities.len()
            invariant
                i <= self.activities@.len(),
                relations@.len() == i,
                forall|k: int| 0 <= k < i ==> #[trigger] relations@[k] is FinishStart,
            decreases self.activities@.len() - i,
        {
            relations.push(ActivityRelation::FinishStart);
            i += 1;
        }
        assert(relations@ =~= self.spec_relations());
        relations
    }
}

/// `chrono::TimeDelta`, carried as it is in a postponement.
#[verifier::external_type_specification]
#[verifier::external_body]
pub struct ExTimeDelta(chrono::TimeDelta);

/// How an activity relates in time to the one before it.
pub enum ActivityRelation {
    StartStart,
    FinishStart,
    Postpone(chrono::TimeDelta),
}

} // verus!
