use vstd::prelude::*;

verus! {

/// The source of every random decision in a battle; tests substitute a fixed one.
pub trait RandomProvider {
    /// A value between the bounds, both included.
    fn pick_linear_u64(&self, lower_bound: u64, upper_bound: u64) -> (r: u64)
        requires
            lower_bound <= upper_bound,
        ensures
            lower_bound <= r <= upper_bound,
    ;

    /// A value between the bounds, both included.
    fn pick_linear_usize(&self, lower_bound: usize, upper_bound: usize) -> (r: usize)
        requires
            lower_bound <= upper_bound,
        ensures
            lower_bound <= r <= upper_bound,
    ;
}

/// Draws from the thread-local generator of `rand`.
#[derive(Default)]
pub struct DefaultRandomProvider {}

/// Relies on rand's `Rng::gen_range` on `thread_rng()`: for an inclusive range it returns a
/// value inside it, and it panics only when the range is empty.
#[verifier::external_body]
fn thread_gen_range(lower_bound: u64, upper_bound: u64) -> (r: u64)
    requires
        lower_bound <= upper_bound,
    ensures
        lower_bound <= r <= upper_bound,
{
    rand::Rng::gen_range(&mut rand::thread_rng(), lower_bound..=upper_bound)
}

impl RandomProvider for DefaultRandomProvider {
    fn pick_linear_u64(&self, lower_bound: u64, upper_bound: u64) -> (r: u64) {
        thread_gen_range(lower_bound, upper_bound)
    }

    fn pick_linear_usize(&self, lower_bound: usize, upper_bound: usize) -> (r: usize) {
        thread_gen_range(lower_bound as u64, upper_bound as u64) as usize
    }
}

/// `idx` picks `picked` out of `source` at pairwise distinct positions.
pub open spec fn drawn_without_repeat<T>(picked: Seq<&T>, source: Seq<T>, idx: Seq<usize>) -> bool {
    &&& idx.len() == picked.len()
    &&& forall|k: int| 0 <= k < idx.len() ==> #[trigger] idx[k] < source.len()
    &&& forall|k: int| 0 <= k < idx.len() ==> *#[trigger] picked[k] == source[idx[k] as int]
    &&& forall|a: int, b: int| 0 <= a < idx.len() && 0 <= b < idx.len() && a != b ==> #[trigger] idx[a] != #[trigger] idx[b]
}

/// One element of `items` chosen by `random_provider`; `None` when `items` is empty.
pub fn pick_linear<'a, T, R: RandomProvider>(items: &'a Vec<T>, random_provider: &R) -> (r: Option<&'a T>)
    ensures
        r is None <==> items@.len() == 0,
        r matches Some(v) ==> items@.contains(*v),
{
    if items.len() == 0 {
        None
    } else {
        let i = random_provider.pick_linear_usize(0, items.len() - 1);
        Some(&items[i])
    }
}

/// `min(count, items.len())` elements of `items` taken at distinct positions, each draw
/// made by `random_provider` over the positions not yet taken.
pub fn pick_n_unique_linear<'a, T, R: RandomProvider>(items: &'a Vec<T>, count: usize, random_provider: &R) -> (r: Vec<&'a T>)
    ensures
        r@.len() == if count < items@.len() { count as int } else { items@.len() as int },
        exists|idx: Seq<usize>| #[trigger] drawn_without_repeat(r@, items@, idx),
{
    let len = items.len();
    let goal = if count < len { count } else { len };
    let mut order: Vec<usize> = Vec::new();
    let mut i: usize = 0;
    while i < len
        invariant
            i <= len,
            len == items@.len(),
            order@.len() == i,
            forall|k: int| 0 <= k < i ==> #[trigger] order@[k] == k,
        decreases len - i,
    {
        order.push(i);
        i = i + 1;
    }
    let mut result: Vec<&'a T> = Vec::new();
    let mut i: usize = 0;
    while i < goal
        invariant
            goal <= len,
            len == items@.len(),
            i <= goal,
            order@.len() == len,
            result@.len() == i,
            forall|k: int| 0 <= k < len ==> #[trigger] order@[k] < len,
            forall|a: int, b: int| 0 <= a < len && 0 <= b < len && a != b ==> #[trigger] order@[a] != #[trigger] order@[b],
            forall|k: int| 0 <= k < i ==> *(#[trigger] result@[k]) == items@[order@[k] as int],
        decreases goal - i,
    {
        let j = random_provider.pick_linear_usize(i, len - 1);
        let a = order[i];
        let b = order[j];
        order[i] = b;
        order[j] = a;
        result.push(&items[b]);
        i = i + 1;
    }
    proof {
        let idx = order@.subrange(0, goal as int);
        assert(drawn_without_repeat(result@, items@, idx));
    }
    result
}

} // verus!
