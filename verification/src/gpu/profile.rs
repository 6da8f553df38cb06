//! The profile of a fit: the time that the launches of each category took.

use vstd::prelude::*;
use vstd::string::StringExecFns;

use crate::gpu::plan::Category;
use crate::text::decimal;
use crate::text::wide_decimal_text;

verus! {

/// The number of categories.
pub const N_CATEGORIES: usize = 9;

impl Category {
    /// The place of a category in a round.
    pub open spec fn place(self) -> int {
        match self {
            Category::Gradients => 0,
            Category::ZeroHist => 1,
            Category::BuildHist => 2,
            Category::SplitGain => 3,
            Category::ArgmaxSplit => 4,
            Category::ApplySplit => 5,
            Category::LeafHist => 6,
            Category::LeafValues => 7,
            Category::UpdatePred => 8,
        }
    }

    /// The name of a category.
    pub fn name(self) -> (r: &'static str)
        ensures
            r@ == CATEGORIES@[self.place()]@,
    {
        CATEGORIES[self.index()]
    }

    /// The place of a category in a round.
    pub fn index(self) -> (r: usize)
        ensures
            r == self.place(),
            r < N_CATEGORIES,
    {
        match self {
            Category::Gradients => 0,
            Category::ZeroHist => 1,
            Category::BuildHist => 2,
            Category::SplitGain => 3,
            Category::ArgmaxSplit => 4,
            Category::ApplySplit => 5,
            Category::LeafHist => 6,
            Category::LeafValues => 7,
            Category::UpdatePred => 8,
        }
    }
}

/// The names of the categories, in the order of a round.
pub const CATEGORIES: [&'static str; 9] = [
    "gradients",
    "zero_hist",
    "build_hist",
    "split_gain",
    "argmax_split",
    "apply_split",
    "leaf_hist",
    "leaf_values",
    "update_pred",
];

/// The time spent on each category so far, in nanoseconds.
pub struct Timings {
    pub spent: Vec<u128>,
}

impl View for Timings {
    type V = Seq<u128>;

    open spec fn view(&self) -> Seq<u128> {
        self.spent@
    }
}

/// The result of a profiled fit, in nanoseconds.
pub struct Profile {
    /// The time that the whole fit took.
    pub total: u128,
    /// The time spent on each category, by name.
    pub per_category_ns: Vec<(String, u128)>,
}

impl Profile {
    /// The profile holds the given times, in the order of a round.
    pub open spec fn holds(self, total: u128, spent: Seq<u128>) -> bool {
        &&& self.total == total
        &&& self.per_category_ns@.len() == N_CATEGORIES
        &&& forall|i: int|
            0 <= i < N_CATEGORIES ==> (#[trigger] self.per_category_ns@[i]).0@
                == CATEGORIES@[i]@ && self.per_category_ns@[i].1 == spent[i]
    }
}

impl Timings {
    /// There is a time for each category.
    pub open spec fn well_formed(self) -> bool {
        self@.len() == N_CATEGORIES
    }

    /// No time has been spent.
    pub fn new() -> (t: Timings)
        ensures
            t.well_formed(),
            forall|i: int| 0 <= i < N_CATEGORIES ==> #[trigger] t@[i] == 0,
    {
        Timings { spent: vec![0u128; N_CATEGORIES] }
    }

    /// Time has been spent on a category.
    pub fn mark(&mut self, category: Category, ns: u128)
        requires
            old(self).well_formed(),
            old(self)@[category.place()] + ns <= u128::MAX,
        ensures
            final(self).well_formed(),
            final(self)@ == old(self)@.update(
                category.place(),
                (old(self)@[category.place()] + ns) as u128,
            ),
    {
        let i: usize = category.index();
        let so_far: u128 = self.spent[i];
        self.spent[i] = so_far + ns;
    }

    /// The profile of a fit that took `total` nanoseconds.
    pub fn profile(&self, total: u128) -> (p: Profile)
        requires
            self.well_formed(),
        ensures
            p.holds(total, self@),
    {
        let mut per_category_ns: Vec<(String, u128)> = Vec::new();
        let mut i: usize = 0;
        while i < N_CATEGORIES
            invariant
                self.well_formed(),
                i <= N_CATEGORIES,
                per_category_ns@.len() == i,
                forall|k: int|
                    0 <= k < i ==> (#[trigger] per_category_ns@[k]).0@ == CATEGORIES@[k]@
                        && per_category_ns@[k].1 == self@[k],
            decreases N_CATEGORIES - i,
        {
            let name: String = CATEGORIES[i].to_owned();
            per_category_ns.push((name, self.spent[i]));
            i = i + 1;
        }
        Profile { total, per_category_ns }
    }
}

/// The lines of the first `k` categories of a profile as JSON text.
pub open spec fn category_lines(p: Profile, k: nat) -> Seq<char>
    decreases k,
{
    if k == 0 {
        Seq::empty()
    } else {
        let (name, ns) = p.per_category_ns@[k - 1];
        category_lines(p, (k - 1) as nat) + "    \""@ + name@ + "\": "@ + decimal(ns as nat) + (
        if k < p.per_category_ns@.len() {
            ",\n"@
        } else {
            "\n"@
        })
    }
}

/// A profile as JSON text.
pub open spec fn profile_text(p: Profile) -> Seq<char> {
    "{\n  \"total_ns\": "@ + decimal(p.total as nat) + ",\n  \"categories\": {\n"@
        + category_lines(p, p.per_category_ns@.len()) + "  }\n}\n"@
}

impl Profile {
    /// The profile as JSON text.
    pub fn to_json(&self) -> (body: String)
        ensures
            body@ == profile_text(*self),
    {
        let mut body: String = "{\n  \"total_ns\": ".to_owned();
        body.append(wide_decimal_text(self.total).as_str());
        body.append(",\n  \"categories\": {\n");
        let ghost head = body@;
        let mut i: usize = 0;
        assert(body@ =~= head + category_lines(*self, 0));
        while i < self.per_category_ns.len()
            invariant
                i <= self.per_category_ns@.len(),
                body@ == head + category_lines(*self, i as nat),
            decreases self.per_category_ns@.len() - i,
        {
            body.append("    \"");
            body.append(self.per_category_ns[i].0.as_str());
            body.append("\": ");
            body.append(wide_decimal_text(self.per_category_ns[i].1).as_str());
            if i + 1 < self.per_category_ns.len() {
                body.append(",\n");
            } else {
                body.append("\n");
            }
            i = i + 1;
            assert(body@ =~= head + category_lines(*self, i as nat));
        }
        body.append("  }\n}\n");
        body
    }
}

} // verus!
