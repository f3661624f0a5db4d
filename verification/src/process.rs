//! Plans as networks of flows.
//!
//! A plan lists its steps; a process graph says how material flows between them.
//! What a step makes goes to the steps that use it, first come first served; what
//! a step uses beyond that comes from outside, and what is left over is the target
//! or a by-product.
use vstd::prelude::*;

use crate::model::{copy_option, MaterialDto};
use crate::order::{reorder, sort_positions};
use crate::plan::{Plan, PlanEntry};
use crate::scalar::{Arithmetic, Scalar};
use crate::text::{is_text_before, same};

verus! {

/// What tells materials apart: kind, id and NBT.
pub type FlowKey = (String, String, Option<String>);

/// The key of a material, for contracts.
pub struct KeyText {
    pub kind: Seq<char>,
    pub id: Seq<char>,
    pub nbt: Option<Seq<char>>,
}

/// The key of a material.
pub open spec fn key_text(m: crate::graph::MaterialText) -> KeyText {
    KeyText { kind: m.kind, id: m.id, nbt: m.nbt }
}

/// The key of a material.
pub fn key_of(m: &MaterialDto) -> (r: FlowKey)
    ensures
        key_text(m@) == (KeyText { kind: r.0@, id: r.1@, nbt: crate::graph::text_of(r.2) }),
{
    (m.kind.clone(), m.id.clone(), copy_option(&m.nbt))
}

/// A step of a process.
#[derive(Debug)]
pub struct ProcessStep {
    pub index: usize,
    pub recipe: String,
    pub category_title: String,
    pub ops_per_min: Scalar,
    pub machine_count: Option<Scalar>,
    pub tier: Option<String>,
    pub eu_t: Option<Scalar>,
}

/// A flow of material.
#[derive(Debug)]
pub struct ProcessFlow {
    pub material: MaterialDto,
    pub rate_per_min: Scalar,
    /// The step that makes it; none for what comes from outside.
    pub from_step: Option<usize>,
    /// The step that uses it; none for the target and by-products.
    pub to_step: Option<usize>,
}

/// A plan as a network of flows.
#[derive(Debug)]
pub struct ProcessGraph {
    pub target: MaterialDto,
    pub rate_per_min: Scalar,
    pub steps: Vec<ProcessStep>,
    /// Flows between steps, and of the target out of them.
    pub flows: Vec<ProcessFlow>,
    pub raw_inputs: Vec<ProcessFlow>,
    pub byproducts: Vec<ProcessFlow>,
}

/// A flow with its texts.
pub struct FlowText {
    pub material: crate::graph::MaterialText,
    pub rate_per_min: Scalar,
    pub from_step: Option<usize>,
    pub to_step: Option<usize>,
}

impl View for ProcessFlow {
    type V = FlowText;

    open spec fn view(&self) -> FlowText {
        FlowText {
            material: self.material@,
            rate_per_min: self.rate_per_min,
            from_step: self.from_step,
            to_step: self.to_step,
        }
    }
}

/// Flows with their texts.
pub open spec fn flow_texts(v: Seq<ProcessFlow>) -> Seq<FlowText> {
    v.map_values(|f: ProcessFlow| f@)
}

/// What a step makes or uses.
pub struct Share {
    pub step: usize,
    pub rate: Scalar,
    pub material: crate::graph::MaterialText,
}

/// What the first `k` entries of a step make or use.
pub open spec fn shares_of(step: usize, entries: Seq<crate::plan::EntryText>, k: int) -> Seq<Share>
    decreases k,
{
    if k <= 0 {
        Seq::empty()
    } else {
        shares_of(step, entries, k - 1).push(
            Share { step, rate: entries[k - 1].rate_per_min, material: entries[k - 1].material },
        )
    }
}

/// What the first `i` steps make.
pub open spec fn made_by(steps: Seq<crate::plan::StepText>, i: int) -> Seq<Share>
    decreases i,
{
    if i <= 0 {
        Seq::empty()
    } else {
        made_by(steps, i - 1) + shares_of(
            (i - 1) as usize,
            steps[i - 1].outputs,
            steps[i - 1].outputs.len() as int,
        )
    }
}

/// What the first `i` steps use.
pub open spec fn used_by(steps: Seq<crate::plan::StepText>, i: int) -> Seq<Share>
    decreases i,
{
    if i <= 0 {
        Seq::empty()
    } else {
        used_by(steps, i - 1) + shares_of(
            (i - 1) as usize,
            steps[i - 1].inputs,
            steps[i - 1].inputs.len() as int,
        )
    }
}

/// The order of NBT: none comes first.
pub open spec fn nbt_before(a: Option<Seq<char>>, b: Option<Seq<char>>) -> bool {
    match (a, b) {
        (None, Some(_)) => true,
        (Some(x), Some(y)) => crate::text::text_before(x, y),
        _ => false,
    }
}

/// The order of keys: by kind, then id, then NBT.
pub open spec fn key_before(a: KeyText, b: KeyText) -> bool {
    ||| crate::text::text_before(a.kind, b.kind)
    ||| a.kind == b.kind && crate::text::text_before(a.id, b.id)
    ||| a.kind == b.kind && a.id == b.id && nbt_before(a.nbt, b.nbt)
}

proof fn key_before_orders(a: KeyText, b: KeyText, c: KeyText)
    ensures
        !key_before(a, a),
        key_before(a, b) && key_before(b, c) ==> key_before(a, c),
        a == b || key_before(a, b) || key_before(b, a),
        !(key_before(a, b) && key_before(b, a)),
{
    crate::text::text_before_orders(a.kind, b.kind, c.kind);
    crate::text::text_before_orders(b.kind, a.kind, c.kind);
    crate::text::text_before_orders(b.kind, c.kind, a.kind);
    crate::text::text_before_orders(a.id, b.id, c.id);
    crate::text::text_before_orders(b.id, a.id, c.id);
    crate::text::text_before_orders(b.id, c.id, a.id);
    if a.nbt is Some && b.nbt is Some {
        let none = Seq::<char>::empty();
        let z = match c.nbt {
            Some(x) => x,
            None => none,
        };
        crate::text::text_before_orders(a.nbt->0, b.nbt->0, z);
        crate::text::text_before_orders(b.nbt->0, a.nbt->0, z);
    } else if a.nbt is Some {
        crate::text::text_before_orders(a.nbt->0, a.nbt->0, a.nbt->0);
    }
}

/// Shares by key, and those of one key by step.
pub open spec fn share_order(s: Seq<Share>) -> spec_fn(int, int) -> bool {
    |i: int, j: int|
        key_before(key_text(s[i].material), key_text(s[j].material)) || (key_text(s[i].material)
            == key_text(s[j].material) && s[i].step < s[j].step)
}

/// Shares by key.
pub open spec fn key_order(s: Seq<Share>) -> spec_fn(int, int) -> bool {
    |i: int, j: int| key_before(key_text(s[i].material), key_text(s[j].material))
}

/// Greater flows first.
pub open spec fn flow_order<A: Arithmetic>(ar: A, s: Seq<FlowText>) -> spec_fn(int, int) -> bool {
    |i: int, j: int| ar.total_before_spec(s[j].rate_per_min, s[i].rate_per_min)
}

/// Shares of what is made are handed out for one use, on their way.
pub struct Serving {
    pub made: Seq<Share>,
    pub need: Scalar,
    pub flows: Seq<FlowText>,
}

/// Shares are handed out for all uses, on their way.
pub struct Handing {
    pub made: Seq<Share>,
    pub flows: Seq<FlowText>,
    pub raw: Seq<FlowText>,
}

/// What is left is handed out, on its way.
pub struct Ending {
    /// How much of the target is still asked for.
    pub asked: Scalar,
    pub flows: Seq<FlowText>,
    pub byproducts: Seq<FlowText>,
}

/// The first `k` shares of what is made, as far as they are of the material that
/// is used, serve a use until nothing more is needed.
pub open spec fn serve_to<A: Arithmetic>(ar: A, made: Seq<Share>, use_of: Share, flows: Seq<FlowText>, k: int) -> Serving
    decreases k,
{
    if k <= 0 {
        Serving { made, need: use_of.rate, flows }
    } else {
        let s = serve_to(ar, made, use_of, flows, k - 1);
        let share = s.made[k - 1];
        let eps = crate::planner::tree::eps(ar);
        if ar.le_spec(s.need, eps) || key_text(share.material) != key_text(use_of.material)
            || ar.le_spec(share.rate, eps) {
            s
        } else {
            let take = ar.least_spec(s.need, share.rate);
            Serving {
                made: s.made.update(
                    k - 1,
                    Share { rate: ar.minus_spec(share.rate, take), ..share },
                ),
                need: ar.minus_spec(s.need, take),
                flows: s.flows.push(
                    FlowText {
                        material: use_of.material,
                        rate_per_min: take,
                        from_step: Some(share.step),
                        to_step: Some(use_of.step),
                    },
                ),
            }
        }
    }
}

/// The first `j` uses are served; what they need beyond what is made comes from
/// outside.
pub open spec fn hand_to<A: Arithmetic>(ar: A, made: Seq<Share>, uses: Seq<Share>, j: int) -> Handing
    decreases j,
{
    if j <= 0 {
        Handing { made, flows: Seq::empty(), raw: Seq::empty() }
    } else {
        let h = hand_to(ar, made, uses, j - 1);
        let s = serve_to(ar, h.made, uses[j - 1], h.flows, h.made.len() as int);
        Handing {
            made: s.made,
            flows: s.flows,
            raw: if ar.lt_spec(crate::planner::tree::eps(ar), s.need) {
                h.raw.push(
                    FlowText {
                        material: uses[j - 1].material,
                        rate_per_min: s.need,
                        from_step: None,
                        to_step: Some(uses[j - 1].step),
                    },
                )
            } else {
                h.raw
            },
        }
    }
}

/// A flow out of the process.
pub open spec fn outflow(share: Share, rate: Scalar) -> FlowText {
    FlowText {
        material: share.material,
        rate_per_min: rate,
        from_step: Some(share.step),
        to_step: None,
    }
}

/// What is left of the first `k` shares is the target, as far as that is asked
/// for, or a by-product.
pub open spec fn end_to<A: Arithmetic>(
    ar: A,
    target: KeyText,
    asked: Scalar,
    flows: Seq<FlowText>,
    left: Seq<Share>,
    k: int,
) -> Ending
    decreases k,
{
    if k <= 0 {
        Ending { asked, flows, byproducts: Seq::empty() }
    } else {
        let e = end_to(ar, target, asked, flows, left, k - 1);
        let share = left[k - 1];
        let eps = crate::planner::tree::eps(ar);
        if ar.le_spec(share.rate, eps) {
            e
        } else if key_text(share.material) == target && ar.lt_spec(eps, e.asked) {
            let out = ar.least_spec(share.rate, e.asked);
            let excess = ar.minus_spec(share.rate, out);
            Ending {
                asked: ar.minus_spec(e.asked, out),
                flows: e.flows.push(outflow(share, out)),
                byproducts: if ar.lt_spec(eps, excess) {
                    e.byproducts.push(outflow(share, excess))
                } else {
                    e.byproducts
                },
            }
        } else {
            Ending { byproducts: e.byproducts.push(outflow(share, share.rate)), ..e }
        }
    }
}

/// Step `i` of a process is step `i` of the plan.
pub open spec fn shows_step(p: ProcessStep, i: int, s: crate::plan::StepText) -> bool {
    &&& p.index == i
    &&& p.recipe@ == s.recipe
    &&& p.category_title@ == s.category_title
    &&& p.ops_per_min == s.ops_per_min
    &&& p.machine_count == s.machine_count
    &&& crate::graph::text_of(p.tier) == s.tier
    &&& p.eu_t == s.eut
}

/// A share of what is made or used.
struct Part {
    step: usize,
    rate: Scalar,
    material: MaterialDto,
}

impl View for Part {
    type V = Share;

    closed spec fn view(&self) -> Share {
        Share { step: self.step, rate: self.rate, material: self.material@ }
    }
}

spec fn shares(v: Seq<Part>) -> Seq<Share> {
    v.map_values(|p: Part| p@)
}

fn is_key_before(a: &MaterialDto, b: &MaterialDto) -> (r: bool)
    ensures
        r == key_before(key_text(a@), key_text(b@)),
{
    proof {
        crate::text::text_before_orders(a.kind@, b.kind@, a.kind@);
        crate::text::text_before_orders(a.id@, b.id@, a.id@);
    }
    if !same(a.kind.as_str(), b.kind.as_str()) {
        is_text_before(a.kind.as_str(), b.kind.as_str())
    } else if !same(a.id.as_str(), b.id.as_str()) {
        is_text_before(a.id.as_str(), b.id.as_str())
    } else {
        match (&a.nbt, &b.nbt) {
            (None, Some(_)) => true,
            (Some(x), Some(y)) => is_text_before(x.as_str(), y.as_str()),
            _ => false,
        }
    }
}

fn same_key(a: &MaterialDto, b: &MaterialDto) -> (r: bool)
    ensures
        r == (key_text(a@) == key_text(b@)),
{
    same(a.kind.as_str(), b.kind.as_str()) && same(a.id.as_str(), b.id.as_str()) && match (
        &a.nbt,
        &b.nbt,
    ) {
        (None, None) => true,
        (Some(x), Some(y)) => same(x.as_str(), y.as_str()),
        _ => false,
    }
}

fn add_shares(list: &mut Vec<Part>, step: usize, entries: &Vec<PlanEntry>)
    ensures
        shares(final(list)@) == shares(old(list)@) + shares_of(
            step,
            crate::plan::entry_texts(entries@),
            entries@.len() as int,
        ),
        forall|i: int| 0 <= i < final(list)@.len() ==> (#[trigger] final(list)@[i]).step <= step || (i
            < old(list)@.len() && final(list)@[i] == old(list)@[i]),
{
    let ghost start = shares(list@);
    let ghost texts = crate::plan::entry_texts(entries@);
    let mut k: usize = 0;
    assert(start =~= start + shares_of(step, texts, 0));
    while k < entries.len()
        invariant
            k <= entries@.len(),
            texts == crate::plan::entry_texts(entries@),
            shares(list@) == start + shares_of(step, texts, k as int),
            list@.len() >= old(list)@.len(),
            forall|i: int| 0 <= i < list@.len() ==> (#[trigger] list@[i]).step <= step || (i
                < old(list)@.len() && list@[i] == old(list)@[i]),
        decreases entries@.len() - k,
    {
        let ghost before = shares(list@);
        let part = Part {
            step,
            rate: entries[k].rate_per_min,
            material: entries[k].material.clone(),
        };
        let ghost share = part@;
        list.push(part);
        assert(shares(list@) =~= before.push(share));
        assert(texts[k as int] == entries@[k as int]@);
        assert(shares(list@) =~= start + shares_of(step, texts, k + 1));
        k += 1;
    }
}

fn list_made(plan: &Plan) -> (r: Vec<Part>)
    ensures
        shares(r@) == made_by(
            crate::plan::step_texts(plan.recipes@),
            plan.recipes@.len() as int,
        ),
        forall|i: int| 0 <= i < r@.len() ==> (#[trigger] r@[i]).step < plan.recipes@.len(),
{
    let ghost steps = crate::plan::step_texts(plan.recipes@);
    let mut r: Vec<Part> = Vec::new();
    let mut i: usize = 0;
    assert(shares(r@) =~= made_by(steps, 0));
    while i < plan.recipes.len()
        invariant
            i <= plan.recipes@.len(),
            steps == crate::plan::step_texts(plan.recipes@),
            shares(r@) == made_by(steps, i as int),
            forall|k: int| 0 <= k < r@.len() ==> (#[trigger] r@[k]).step < i,
        decreases plan.recipes@.len() - i,
    {
        assert(steps[i as int] == plan.recipes@[i as int]@);
        let ghost had = r@;
        add_shares(&mut r, i, &plan.recipes[i].outputs);
        assert forall|k: int| 0 <= k < r@.len() implies (#[trigger] r@[k]).step < i + 1 by {
            if k < had.len() && r@[k] == had[k] {
                assert(had[k].step < i);
            }
        }
        i += 1;
    }
    r
}

fn list_used(plan: &Plan) -> (r: Vec<Part>)
    ensures
        shares(r@) == used_by(
            crate::plan::step_texts(plan.recipes@),
            plan.recipes@.len() as int,
        ),
        forall|i: int| 0 <= i < r@.len() ==> (#[trigger] r@[i]).step < plan.recipes@.len(),
{
    let ghost steps = crate::plan::step_texts(plan.recipes@);
    let mut r: Vec<Part> = Vec::new();
    let mut i: usize = 0;
    assert(shares(r@) =~= used_by(steps, 0));
    while i < plan.recipes.len()
        invariant
            i <= plan.recipes@.len(),
            steps == crate::plan::step_texts(plan.recipes@),
            shares(r@) == used_by(steps, i as int),
            forall|k: int| 0 <= k < r@.len() ==> (#[trigger] r@[k]).step < i,
        decreases plan.recipes@.len() - i,
    {
        assert(steps[i as int] == plan.recipes@[i as int]@);
        let ghost had = r@;
        add_shares(&mut r, i, &plan.recipes[i].inputs);
        assert forall|k: int| 0 <= k < r@.len() implies (#[trigger] r@[k]).step < i + 1 by {
            if k < had.len() && r@[k] == had[k] {
                assert(had[k].step < i);
            }
        }
        i += 1;
    }
    r
}

/// The order of uses is one.
pub(crate) proof fn share_order_orders(texts: Seq<Share>)
    ensures
        crate::order::orders(share_order(texts), texts.len() as int),
{
    let before = share_order(texts);
    let n = texts.len() as int;
    assert(crate::order::orders(before, n)) by {
        assert forall|i: int| 0 <= i < n implies !#[trigger] before(i, i) by {
            let a = key_text(texts[i].material);
            key_before_orders(a, a, a);
        }
        assert forall|i: int, j: int, k: int|
            0 <= i < n && 0 <= j < n && 0 <= k < n && #[trigger] before(i, j)
                && #[trigger] before(j, k) implies before(i, k) by {
            key_before_orders(
                key_text(texts[i].material),
                key_text(texts[j].material),
                key_text(texts[k].material),
            );
        }
        assert forall|i: int, j: int, k: int|
            #![trigger before(i, k), before(i, j)]
            #![trigger before(i, k), before(j, k)]
            0 <= i < n && 0 <= j < n && 0 <= k < n && before(i, k) implies before(i, j)
            || before(j, k) by {
            let a = key_text(texts[i].material);
            let b = key_text(texts[j].material);
            let c = key_text(texts[k].material);
            key_before_orders(a, b, c);
            key_before_orders(b, c, a);
            key_before_orders(b, a, c);
        }
    }
}

fn sort_used(v: Vec<Part>) -> (r: Vec<Part>)
    ensures
        shares(r@) == crate::order::sorted(shares(v@), share_order(shares(v@))),
        forall|n: usize|
            #![trigger below(r@, n)]
            below(v@, n) ==> below(r@, n),
{
    let ghost texts = shares(v@);
    let ghost before = share_order(texts);
    proof {
        share_order_orders(texts);
    }
    let less = |i: usize, j: usize| -> (b: bool)
        requires
            i < v@.len() && j < v@.len(),
        ensures
            b == (key_before(key_text(v@[i as int].material@), key_text(v@[j as int].material@)) || (
            key_text(v@[i as int].material@) == key_text(v@[j as int].material@)
                && v@[i as int].step < v@[j as int].step)),
        {
            is_key_before(&v[i].material, &v[j].material) || (same_key(
                &v[i].material,
                &v[j].material,
            ) && v[i].step < v[j].step)
        };
    let p = sort_positions(v.len(), less, Ghost(before));
    proof {
        crate::order::stable_order_is_permutation(before, texts.len() as int, p@);
        crate::order::sorted_is(texts, before, p@);
    }
    let ghost items = v@;
    let r = reorder(v, &p);
    assert(shares(r@) =~= crate::order::listed(texts, p@));
    assert forall|n: usize| below(items, n) implies #[trigger] below(r@, n) by {
        assert forall|i: int| 0 <= i < r@.len() implies (#[trigger] r@[i]).step < n by {
            assert(r@[i] == items[p@[i] as int]);
        }
    }
    r
}

/// The order of keys of shares is one.
pub(crate) proof fn key_order_orders(texts: Seq<Share>)
    ensures
        crate::order::orders(key_order(texts), texts.len() as int),
{
    let before = key_order(texts);
    let n = texts.len() as int;
    assert(crate::order::orders(before, n)) by {
        assert forall|i: int| 0 <= i < n implies !#[trigger] before(i, i) by {
            let a = key_text(texts[i].material);
            key_before_orders(a, a, a);
        }
        assert forall|i: int, j: int, k: int|
            0 <= i < n && 0 <= j < n && 0 <= k < n && #[trigger] before(i, j)
                && #[trigger] before(j, k) implies before(i, k) by {
            key_before_orders(
                key_text(texts[i].material),
                key_text(texts[j].material),
                key_text(texts[k].material),
            );
        }
        assert forall|i: int, j: int, k: int|
            #![trigger before(i, k), before(i, j)]
            #![trigger before(i, k), before(j, k)]
            0 <= i < n && 0 <= j < n && 0 <= k < n && before(i, k) implies before(i, j)
            || before(j, k) by {
            let a = key_text(texts[i].material);
            let b = key_text(texts[j].material);
            let c = key_text(texts[k].material);
            key_before_orders(a, b, c);
            key_before_orders(b, c, a);
            key_before_orders(b, a, c);
        }
    }
}

fn sort_left(v: Vec<Part>) -> (r: Vec<Part>)
    ensures
        shares(r@) == crate::order::sorted(shares(v@), key_order(shares(v@))),
        forall|n: usize|
            #![trigger below(r@, n)]
            below(v@, n) ==> below(r@, n),
{
    let ghost texts = shares(v@);
    let ghost before = key_order(texts);
    proof {
        key_order_orders(texts);
    }
    let less = |i: usize, j: usize| -> (b: bool)
        requires
            i < v@.len() && j < v@.len(),
        ensures
            b == key_before(key_text(v@[i as int].material@), key_text(v@[j as int].material@)),
        { is_key_before(&v[i].material, &v[j].material) };
    let p = sort_positions(v.len(), less, Ghost(before));
    proof {
        crate::order::stable_order_is_permutation(before, texts.len() as int, p@);
        crate::order::sorted_is(texts, before, p@);
    }
    let ghost items = v@;
    let r = reorder(v, &p);
    assert(shares(r@) =~= crate::order::listed(texts, p@));
    assert forall|n: usize| below(items, n) implies #[trigger] below(r@, n) by {
        assert forall|i: int| 0 <= i < r@.len() implies (#[trigger] r@[i]).step < n by {
            assert(r@[i] == items[p@[i] as int]);
        }
    }
    r
}

spec fn below(v: Seq<Part>, n: usize) -> bool {
    forall|i: int| 0 <= i < v.len() ==> (#[trigger] v[i]).step < n
}

/// Flows lead between steps of a process with `n` steps, or in or out.
pub open spec fn flow_ok(f: FlowText, n: nat) -> bool {
    &&& f.from_step matches Some(s) ==> s < n
    &&& f.to_step matches Some(s) ==> s < n
    &&& f.from_step is Some || f.to_step is Some
}

/// All flows lead between steps, or in or out.
pub open spec fn flows_ok(v: Seq<FlowText>, n: nat) -> bool {
    forall|i: int| 0 <= i < v.len() ==> flow_ok(#[trigger] v[i], n)
}

fn sort_flows<A: Arithmetic>(ar: &A, v: Vec<ProcessFlow>) -> (r: Vec<ProcessFlow>)
    ensures
        flow_texts(r@) == crate::order::sorted(
            flow_texts(v@),
            flow_order(*ar, flow_texts(v@)),
        ),
        forall|n: nat| flows_ok(flow_texts(v@), n) ==> #[trigger] flows_ok(flow_texts(r@), n),
{
    let ghost texts = flow_texts(v@);
    let ghost before = flow_order(*ar, texts);
    proof {
        ar.total_before_orders();
    }
    let less = |i: usize, j: usize| -> (b: bool)
        requires
            i < v@.len() && j < v@.len(),
        ensures
            b == ar.total_before_spec(v@[j as int].rate_per_min, v@[i as int].rate_per_min),
        { ar.total_before(v[j].rate_per_min, v[i].rate_per_min) };
    let p = sort_positions(v.len(), less, Ghost(before));
    proof {
        crate::order::stable_order_is_permutation(before, texts.len() as int, p@);
        crate::order::sorted_is(texts, before, p@);
    }
    let r = reorder(v, &p);
    let ghost sorted = crate::order::listed(texts, p@);
    assert(flow_texts(r@) =~= sorted);
    assert forall|n: nat| flows_ok(texts, n) implies #[trigger] flows_ok(sorted, n) by {
        assert forall|i: int| 0 <= i < sorted.len() implies flow_ok(#[trigger] sorted[i], n) by {
            assert(sorted[i] == texts[p@[i] as int]);
        }
    }
    r
}

fn push_flow(
    flows: &mut Vec<ProcessFlow>,
    material: MaterialDto,
    rate_per_min: Scalar,
    from_step: Option<usize>,
    to_step: Option<usize>,
)
    ensures
        flow_texts(final(flows)@) == flow_texts(old(flows)@).push(
            FlowText { material: material@, rate_per_min, from_step, to_step },
        ),
{
    let ghost before = flow_texts(flows@);
    let flow = ProcessFlow { material, rate_per_min, from_step, to_step };
    let ghost shown = flow@;
    flows.push(flow);
    assert(flow_texts(flows@) =~= before.push(shown));
}

fn serve<A: Arithmetic>(ar: &A, made: &mut Vec<Part>, used: &Part, flows: &mut Vec<ProcessFlow>, n: usize) -> (need:
    Scalar)
    requires
        below(old(made)@, n),
        used.step < n,
        flows_ok(flow_texts(old(flows)@), n as nat),
    ensures
        (Serving { made: shares(final(made)@), need, flows: flow_texts(final(flows)@) })
            == serve_to(
            *ar,
            shares(old(made)@),
            used@,
            flow_texts(old(flows)@),
            old(made)@.len() as int,
        ),
        below(final(made)@, n),
        final(made)@.len() == old(made)@.len(),
        flows_ok(flow_texts(final(flows)@), n as nat),
{
    let eps = ar.ratio(1, 1_000_000_000);
    let ghost start = shares(made@);
    let ghost first = flow_texts(flows@);
    let mut need = used.rate;
    let mut k: usize = 0;
    while k < made.len()
        invariant
            k <= made@.len(),
            made@.len() == old(made)@.len(),
            eps == crate::planner::tree::eps(*ar),
            below(made@, n),
            used.step < n,
            flows_ok(flow_texts(flows@), n as nat),
            (Serving { made: shares(made@), need, flows: flow_texts(flows@) }) == serve_to(
                *ar,
                start,
                used@,
                first,
                k as int,
            ),
        decreases made@.len() - k,
    {
        assert(shares(made@)[k as int] == made@[k as int]@);
        if !ar.le(need, eps) && same_key(&made[k].material, &used.material) && !ar.le(
            made[k].rate,
            eps,
        ) {
            let ghost before = shares(made@);
            let ghost had = made@;
            let ghost shown = flow_texts(flows@);
            let take = ar.least(need, made[k].rate);
            let rest = ar.minus(made[k].rate, take);
            made[k].rate = rest;
            need = ar.minus(need, take);
            let from: usize = made[k].step;
            assert(had[k as int].step < n);
            push_flow(flows, used.material.clone(), take, Some(from), Some(used.step));
            proof {
                assert(shares(made@) =~= before.update(
                    k as int,
                    Share { rate: rest, ..before[k as int] },
                ));
                let flow = FlowText {
                    material: used.material@,
                    rate_per_min: take,
                    from_step: Some(from),
                    to_step: Some(used.step),
                };
                assert(flow_ok(flow, n as nat));
                assert forall|i: int| 0 <= i < shown.push(flow).len() implies flow_ok(
                    #[trigger] shown.push(flow)[i],
                    n as nat,
                ) by {
                    if i < shown.len() {
                        assert(flow_ok(shown[i], n as nat));
                    }
                }
                assert forall|i: int| 0 <= i < made@.len() implies (#[trigger] made@[i]).step < n by {
                    assert(had[i].step < n);
                }
            }
        }
        k += 1;
    }
    need
}

fn hand_out<A: Arithmetic>(ar: &A, made: &mut Vec<Part>, used: &Vec<Part>, n: usize) -> (r: (
    Vec<ProcessFlow>,
    Vec<ProcessFlow>,
))
    requires
        below(old(made)@, n),
        below(used@, n),
    ensures
        (Handing {
            made: shares(final(made)@),
            flows: flow_texts(r.0@),
            raw: flow_texts(r.1@),
        }) == hand_to(*ar, shares(old(made)@), shares(used@), used@.len() as int),
        below(final(made)@, n),
        flows_ok(flow_texts(r.0@), n as nat),
        flows_ok(flow_texts(r.1@), n as nat),
{
    let eps = ar.ratio(1, 1_000_000_000);
    let ghost start = shares(made@);
    let ghost uses = shares(used@);
    let mut flows: Vec<ProcessFlow> = Vec::new();
    let mut raw: Vec<ProcessFlow> = Vec::new();
    assert(flow_texts(flows@) =~= Seq::empty());
    assert(flow_texts(raw@) =~= Seq::empty());
    let mut j: usize = 0;
    while j < used.len()
        invariant
            j <= used@.len(),
            uses == shares(used@),
            eps == crate::planner::tree::eps(*ar),
            below(made@, n),
            below(used@, n),
            flows_ok(flow_texts(flows@), n as nat),
            flows_ok(flow_texts(raw@), n as nat),
            (Handing { made: shares(made@), flows: flow_texts(flows@), raw: flow_texts(raw@) })
                == hand_to(*ar, start, uses, j as int),
        decreases used@.len() - j,
    {
        assert(uses[j as int] == used@[j as int]@);
        assert(used@[j as int].step < n);
        assert(shares(made@).len() == made@.len());
        let need = serve(ar, made, &used[j], &mut flows, n);
        if ar.lt(eps, need) {
            let ghost shown = flow_texts(raw@);
            push_flow(&mut raw, used[j].material.clone(), need, None, Some(used[j].step));
            proof {
                let all = flow_texts(raw@);
                assert forall|i: int| 0 <= i < all.len() implies flow_ok(
                    #[trigger] all[i],
                    n as nat,
                ) by {
                    if i < shown.len() {
                        assert(all[i] == shown[i]);
                    }
                }
            }
        }
        j += 1;
    }
    (flows, raw)
}

fn end<A: Arithmetic>(ar: &A, plan: &Plan, flows: &mut Vec<ProcessFlow>, left: &Vec<Part>, n: usize) -> (byproducts:
    Vec<ProcessFlow>)
    requires
        below(left@, n),
        flows_ok(flow_texts(old(flows)@), n as nat),
    ensures
        ({
            let e = end_to(
                *ar,
                key_text(plan.target@),
                plan.rate_per_min,
                flow_texts(old(flows)@),
                shares(left@),
                left@.len() as int,
            );
            e.flows == flow_texts(final(flows)@) && e.byproducts == flow_texts(byproducts@)
        }),
        flows_ok(flow_texts(final(flows)@), n as nat),
        flows_ok(flow_texts(byproducts@), n as nat),
{
    let eps = ar.ratio(1, 1_000_000_000);
    let ghost first = flow_texts(flows@);
    let ghost target = key_text(plan.target@);
    let ghost items = shares(left@);
    let mut asked = plan.rate_per_min;
    let mut byproducts: Vec<ProcessFlow> = Vec::new();
    assert(flow_texts(byproducts@) =~= Seq::empty());
    let mut k: usize = 0;
    while k < left.len()
        invariant
            k <= left@.len(),
            items == shares(left@),
            target == key_text(plan.target@),
            eps == crate::planner::tree::eps(*ar),
            below(left@, n),
            flows_ok(flow_texts(flows@), n as nat),
            flows_ok(flow_texts(byproducts@), n as nat),
            (Ending { asked, flows: flow_texts(flows@), byproducts: flow_texts(byproducts@) })
                == end_to(*ar, target, plan.rate_per_min, first, items, k as int),
        decreases left@.len() - k,
    {
        assert(items[k as int] == left@[k as int]@);
        assert(left@[k as int].step < n);
        let rate = left[k].rate;
        let step: usize = left[k].step;
        let ghost f0 = flow_texts(flows@);
        let ghost b0 = flow_texts(byproducts@);
        if !ar.le(rate, eps) {
            if same_key(&left[k].material, &plan.target) && ar.lt(eps, asked) {
                let out = ar.least(rate, asked);
                asked = ar.minus(asked, out);
                push_flow(flows, left[k].material.clone(), out, Some(step), None);
                let excess = ar.minus(rate, out);
                if ar.lt(eps, excess) {
                    push_flow(
                        &mut byproducts,
                        left[k].material.clone(),
                        excess,
                        Some(step),
                        None,
                    );
                }
            } else {
                push_flow(&mut byproducts, left[k].material.clone(), rate, Some(step), None);
            }
        }
        proof {
            let f1 = flow_texts(flows@);
            let b1 = flow_texts(byproducts@);
            assert forall|i: int| 0 <= i < f1.len() implies flow_ok(#[trigger] f1[i], n as nat) by {
                if i < f0.len() {
                    assert(f1[i] == f0[i]);
                }
            }
            assert forall|i: int| 0 <= i < b1.len() implies flow_ok(#[trigger] b1[i], n as nat) by {
                if i < b0.len() {
                    assert(b1[i] == b0[i]);
                }
            }
        }
        k += 1;
    }
    byproducts
}

/// What the steps of a plan use, in the order in which they are served.
pub open spec fn uses_in(plan: Plan) -> Seq<Share> {
    let steps = crate::plan::step_texts(plan.recipes@);
    let used = used_by(steps, steps.len() as int);
    crate::order::sorted(used, share_order(used))
}

/// What the steps of a plan make is handed out to what they use.
pub open spec fn handed<A: Arithmetic>(ar: A, plan: Plan) -> Handing {
    let steps = crate::plan::step_texts(plan.recipes@);
    hand_to(
        ar,
        made_by(steps, steps.len() as int),
        uses_in(plan),
        uses_in(plan).len() as int,
    )
}

/// What is left then is the target or a by-product.
pub open spec fn ended<A: Arithmetic>(ar: A, plan: Plan) -> Ending {
    let h = handed(ar, plan);
    let left = crate::order::sorted(h.made, key_order(h.made));
    end_to(
        ar,
        key_text(plan.target@),
        plan.rate_per_min,
        h.flows,
        left,
        left.len() as int,
    )
}

/// The lists that are made for a plan find room in memory.
pub open spec fn finds_room<A: Arithmetic>(ar: A, plan: Plan) -> bool {
    let steps = crate::plan::step_texts(plan.recipes@);
    &&& used_by(steps, steps.len() as int).len() <= usize::MAX
    &&& handed(ar, plan).made.len() <= usize::MAX
    &&& handed(ar, plan).raw.len() <= usize::MAX
    &&& ended(ar, plan).flows.len() <= usize::MAX
    &&& ended(ar, plan).byproducts.len() <= usize::MAX
}

/// A process graph shows a plan.
pub open spec fn shows_plan<A: Arithmetic>(ar: A, plan: Plan, p: ProcessGraph) -> bool {
    let steps = crate::plan::step_texts(plan.recipes@);
    let n = steps.len() as int;
    let h = handed(ar, plan);
    let e = ended(ar, plan);
    &&& finds_room(ar, plan)
    &&& p.target@ == plan.target@
    &&& p.rate_per_min == plan.rate_per_min
    &&& p.steps@.len() == n
    &&& forall|i: int| 0 <= i < n ==> shows_step(#[trigger] p.steps@[i], i, steps[i])
    &&& flow_texts(p.flows@) == crate::order::sorted(e.flows, flow_order(ar, e.flows))
    &&& flow_texts(p.raw_inputs@) == crate::order::sorted(h.raw, flow_order(ar, h.raw))
    &&& flow_texts(p.byproducts@) == crate::order::sorted(
        e.byproducts,
        flow_order(ar, e.byproducts),
    )
}

impl ProcessGraph {
    /// The flows lead between the steps of the process, or in or out.
    pub open spec fn wf(self) -> bool {
        &&& flows_ok(flow_texts(self.flows@), self.steps@.len())
        &&& flows_ok(flow_texts(self.raw_inputs@), self.steps@.len())
        &&& flows_ok(flow_texts(self.byproducts@), self.steps@.len())
    }

    /// The network of flows of a plan.
    pub fn from_plan<A: Arithmetic>(ar: &A, plan: &Plan) -> (r: Self)
        ensures
            r.wf(),
            shows_plan(*ar, *plan, r),
    {
        let ghost texts = crate::plan::step_texts(plan.recipes@);
        let n: usize = plan.recipes.len();
        let mut steps: Vec<ProcessStep> = Vec::new();
        let mut i: usize = 0;
        while i < n
            invariant
                i <= n,
                n == plan.recipes@.len(),
                texts == crate::plan::step_texts(plan.recipes@),
                steps@.len() == i,
                forall|k: int| 0 <= k < i ==> shows_step(#[trigger] steps@[k], k, texts[k]),
            decreases n - i,
        {
            let r = &plan.recipes[i];
            assert(texts[i as int] == r@);
            steps.push(
                ProcessStep {
                    index: i,
                    recipe: r.recipe.clone(),
                    category_title: r.category_title.clone(),
                    ops_per_min: r.ops_per_min,
                    machine_count: r.machine_count,
                    tier: copy_option(&r.tier),
                    eu_t: r.eut,
                },
            );
            i += 1;
        }
        let mut made = list_made(plan);
        let used = list_used(plan);
        assert(below(made@, n));
        assert(below(used@, n));
        assert(shares(used@).len() == used.len());
        let used = sort_used(used);
        assert(below(used@, n));
        assert(shares(used@).len() == used.len());
        let (flows, raw) = hand_out(ar, &mut made, &used, n);
        assert(shares(made@).len() == made.len());
        assert(flow_texts(raw@).len() == raw.len());
        let left = sort_left(made);
        assert(below(left@, n));
        assert(shares(left@).len() == left@.len());
        let mut flows = flows;
        let byproducts = end(ar, plan, &mut flows, &left, n);
        assert(flows_ok(flow_texts(flows@), n as nat));
        assert(flow_texts(flows@).len() == flows.len());
        assert(flow_texts(byproducts@).len() == byproducts.len());
        assert(finds_room(*ar, *plan));
        ProcessGraph {
            target: plan.target.clone(),
            rate_per_min: plan.rate_per_min,
            steps,
            flows: sort_flows(ar, flows),
            raw_inputs: sort_flows(ar, raw),
            byproducts: sort_flows(ar, byproducts),
        }
    }
}

} // verus!
