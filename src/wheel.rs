use vstd::prelude::*;
use vstd::multiset::Multiset;

verus! {

/// Levels of the wheel.
pub const NUM_LEVELS: usize = 6;

/// Slots in each level.
pub const LEVEL_MULT: usize = 64;

/// Slots in the whole wheel.
pub const NUM_SLOTS: usize = 384;

/// How far ahead of the wheel's time an entry may be put, in milliseconds.
pub const MAX_DURATION: u64 = 68_719_476_735;

/// The wheel's time stays at or below this, so that slot deadlines never overflow.
pub const WHEEL_TIME_LIMIT: u64 = 4_611_686_018_427_387_904;

/// One entry of the wheel: an item and the millisecond at which it is due.
pub type WheelEntry = (usize, u64);

/// The width of a slot at `level`, in milliseconds: 64 to the power of the level.
pub open spec fn slot_width(level: nat) -> nat
    decreases level,
{
    if level == 0 {
        1
    } else {
        64 * slot_width((level - 1) as nat)
    }
}

/// The entries held by a sequence of slots, counted with repetition.
pub open spec fn contents(s: Seq<Seq<WheelEntry>>) -> Multiset<WheelEntry>
    decreases s.len(),
{
    if s.len() == 0 {
        Multiset::empty()
    } else {
        contents(s.drop_last()).add(s.last().to_multiset())
    }
}

/// The sum over all entries of the level that holds them; moving an entry down a level
/// lowers it by one.
pub open spec fn weight(s: Seq<Seq<WheelEntry>>) -> nat
    decreases s.len(),
{
    if s.len() == 0 {
        0
    } else {
        weight(s.drop_last()) + ((s.len() - 1) as nat / LEVEL_MULT as nat) * s.last().len()
    }
}

proof fn lemma_update(s: Seq<Seq<WheelEntry>>, i: int, v: Seq<WheelEntry>)
    requires
        0 <= i < s.len(),
    ensures
        contents(s.update(i, v)).add(s[i].to_multiset()) =~= contents(s).add(v.to_multiset()),
        weight(s.update(i, v)) + (i / LEVEL_MULT as int) * s[i].len() == weight(s) + (i / LEVEL_MULT as int) * v.len(),
    decreases s.len(),
{
    broadcast use vstd::multiset::group_multiset_axioms;

    let t = s.update(i, v);
    if i == s.len() - 1 {
        assert(t.drop_last() =~= s.drop_last());
        assert(t.last() == v);
        assert(s.last() == s[i]);
        assert(contents(t) == contents(s.drop_last()).add(v.to_multiset()));
        assert(contents(s) == contents(s.drop_last()).add(s[i].to_multiset()));
        let c = contents(s.drop_last());
        assert forall|x: WheelEntry| #[trigger] contents(t).add(s[i].to_multiset()).count(x) == contents(s).add(
            v.to_multiset(),
        ).count(x) by {
            assert(contents(t).count(x) == c.count(x) + v.to_multiset().count(x));
            assert(contents(s).count(x) == c.count(x) + s[i].to_multiset().count(x));
        }
    } else {
        assert(t.drop_last() =~= s.drop_last().update(i, v));
        assert(t.last() == s.last());
        assert(s.drop_last()[i] == s[i]);
        lemma_update(s.drop_last(), i, v);
        assert(contents(t) == contents(t.drop_last()).add(s.last().to_multiset()));
        assert(contents(s) == contents(s.drop_last()).add(s.last().to_multiset()));
        let ct = contents(t.drop_last());
        let cs = contents(s.drop_last());
        let l = s.last().to_multiset();
        assert forall|x: WheelEntry| #[trigger] contents(t).add(s[i].to_multiset()).count(x) == contents(s).add(
            v.to_multiset(),
        ).count(x) by {
            assert(ct.add(s[i].to_multiset()).count(x) == cs.add(v.to_multiset()).count(x));
            assert(contents(t).count(x) == ct.count(x) + l.count(x));
            assert(contents(s).count(x) == cs.count(x) + l.count(x));
        }
    }
}

proof fn lemma_all_empty(s: Seq<Seq<WheelEntry>>)
    requires
        forall|i: int| 0 <= i < s.len() ==> (#[trigger] s[i]).len() == 0,
    ensures
        contents(s) =~= Multiset::empty(),
    decreases s.len(),
{
    if s.len() > 0 {
        assert(s.last().len() == 0);
        assert(s.last() =~= Seq::<WheelEntry>::empty());
        broadcast use vstd::seq_lib::group_to_multiset_ensures;

        assert(s.last().to_multiset().len() == 0);
        lemma_all_empty(s.drop_last());
    }
}

proof fn lemma_slot_in_contents(s: Seq<Seq<WheelEntry>>, i: int, x: WheelEntry)
    requires
        0 <= i < s.len(),
        s[i].contains(x),
    ensures
        contents(s).count(x) > 0,
    decreases s.len(),
{
    broadcast use vstd::seq_lib::group_to_multiset_ensures;

    if i < s.len() - 1 {
        lemma_slot_in_contents(s.drop_last(), i, x);
    }
}

proof fn lemma_contents_in_slot(s: Seq<Seq<WheelEntry>>, x: WheelEntry)
    requires
        contents(s).count(x) > 0,
    ensures
        exists|i: int| 0 <= i < s.len() && (#[trigger] s[i]).contains(x),
    decreases s.len(),
{
    broadcast use vstd::seq_lib::group_to_multiset_ensures;

    if s.len() > 0 {
        if s.last().to_multiset().count(x) > 0 {
            assert(s[s.len() - 1].contains(x));
        } else {
            lemma_contents_in_slot(s.drop_last(), x);
            let i = choose|i: int| 0 <= i < s.drop_last().len() && (#[trigger] s.drop_last()[i]).contains(x);
            assert(s[i] == s.drop_last()[i]);
        }
    }
}

/// An entry due at `due` is in the slot of `level` that the time `now` falls in.
pub open spec fn current(due: u64, level: nat, now: u64) -> bool {
    due as int / slot_width(level) as int == now as int / slot_width(level) as int
}

/// An entry due at `due`, kept at `level` in `slot`, sits where a wheel whose time is `now`
/// looks for it: in the slot of its deadline, not before the wheel's time; below the top
/// level in the level-wide block of the wheel's time, and in the slot of the wheel's time
/// only where that time is the slot's start; at the top level in a later slot, less than a
/// whole turn ahead.
pub open spec fn placed(due: u64, level: nat, slot: nat, now: u64) -> bool {
    let w = slot_width(level) as int;
    let q = due as int / w;
    let cur = now as int / w;
    &&& slot == q % 64
    &&& due >= now
    &&& level < 5 ==> q / 64 == cur / 64
    &&& level < 5 && q == cur ==> now as int == cur * w
    &&& level == 5 ==> q > cur && due - now < 64 * w
}

/// The start of the slot of `level` that `due` falls in.
pub open spec fn slot_start(due: u64, level: nat) -> int {
    (due as int / slot_width(level) as int) * slot_width(level) as int
}

proof fn lemma_width_facts(level: nat)
    requires
        level <= 5,
    ensures
        slot_width(level) >= 1,
        slot_width(level + 1) == 64 * slot_width(level),
        slot_width(level) <= 1_073_741_824,
{
    reveal_with_fuel(slot_width, 7);
}

/// The start of the level-wide block that holds `t` is the start of the slot that `t`
/// falls in, less the slots before it in the block.
proof fn lemma_level_start(t: int, w: int)
    requires
        t >= 0,
        w > 0,
    ensures
        t - t % (64 * w) == (t / w - (t / w) % 64) * w,
        t / (64 * w) == (t / w) / 64,
{
    vstd::arithmetic::div_mod::lemma_div_denominator(t, w, 64);
    assert(w * 64 == 64 * w);
    vstd::arithmetic::div_mod::lemma_fundamental_div_mod(t, 64 * w);
    vstd::arithmetic::div_mod::lemma_fundamental_div_mod(t / w, 64);
    assert(t - t % (64 * w) == (t / (64 * w)) * (64 * w));
    assert((t / w / 64) * (64 * w) == ((t / w / 64) * 64) * w) by (nonlinear_arith);
}

/// Two numbers in the same block of 64, the second not below the first, are as far apart
/// as their places in the block.
proof fn lemma_same_block(q: int, cur: int)
    requires
        q >= cur >= 0,
        q / 64 == cur / 64,
    ensures
        q % 64 - cur % 64 == q - cur,
        0 <= q - cur < 64,
{
    vstd::arithmetic::div_mod::lemma_fundamental_div_mod(q, 64);
    vstd::arithmetic::div_mod::lemma_fundamental_div_mod(cur, 64);
}

/// Where an entry of `level` lies in a scan of that level's slots: how many slots after the
/// first one scanned (the slot of the wheel's time `now`, or the one after it at the top).
pub open spec fn scan_offset(due: u64, level: nat, now: u64) -> int {
    due as int / slot_width(level) as int - now as int / slot_width(level) as int - if level == 5 { 1int } else { 0int }
}

/// A placed entry lies within one turn of the scan, in the slot at its offset.
proof fn lemma_scan_offset(due: u64, level: nat, slot: nat, now: u64)
    requires
        level <= 5,
        placed(due, level, slot, now),
    ensures
        0 <= scan_offset(due, level, now) < 64,
        slot == ((now as int / slot_width(level) as int) % 64 + (if level == 5 { 1int } else { 0int }) + scan_offset(due, level, now)) % 64,
{
    lemma_width_facts(level);
    let w = slot_width(level) as int;
    let q = due as int / w;
    let cur = now as int / w;
    vstd::arithmetic::div_mod::lemma_div_is_ordered(now as int, due as int, w);
    if level < 5 {
        lemma_same_block(q, cur);
        vstd::arithmetic::div_mod::lemma_small_mod((cur % 64 + (q - cur)) as nat, 64);
    } else {
        vstd::arithmetic::div_mod::lemma_fundamental_div_mod(due as int, w);
        vstd::arithmetic::div_mod::lemma_fundamental_div_mod(now as int, w);
        assert(q * w <= due as int);
        assert((now as int) < (cur + 1) * w) by (nonlinear_arith)
            requires
                now as int == w * cur + now as int % w,
                0 <= now as int % w < w,
        ;
        assert(q * w < (cur + 65) * w) by (nonlinear_arith)
            requires
                q * w <= due as int,
                (due as int) - (now as int) < 64 * w,
                (now as int) < (cur + 1) * w,
        ;
        assert(q < cur + 65) by (nonlinear_arith)
            requires
                q * w < (cur + 65) * w,
                w > 0,
        ;
        vstd::arithmetic::div_mod::lemma_fundamental_div_mod(cur, 64);
        vstd::arithmetic::div_mod::lemma_mod_add_multiples_vanish((cur % 64 + q - cur) as int, 64);
        assert((cur % 64 + 1 + (q - cur - 1)) % 64 == q % 64) by {
            let c = cur / 64;
            assert(cur == 64 * c + cur % 64);
            assert(q == (cur % 64 + q - cur) + 64 * c);
            vstd::arithmetic::div_mod::lemma_mod_multiples_vanish(c, cur % 64 + q - cur, 64);
        }
    }
}

/// Two offsets of one turn that land in the same slot are equal.
proof fn lemma_offset_unique(base: int, a: int, b: int)
    requires
        0 <= base,
        0 <= a < 64,
        0 <= b < 64,
        (base + a) % 64 == (base + b) % 64,
    ensures
        a == b,
{
    vstd::arithmetic::div_mod::lemma_fundamental_div_mod(base + a, 64);
    vstd::arithmetic::div_mod::lemma_fundamental_div_mod(base + b, 64);
    assert((base + a) / 64 == (base + b) / 64 || (base + a) / 64 != (base + b) / 64);
    if a < b {
        vstd::arithmetic::div_mod::lemma_mod_sub_multiples_vanish(base + a, 64);
        assert((base + b) - (base + a) == b - a);
        vstd::arithmetic::div_mod::lemma_sub_mod_noop(base + b, base + a, 64);
        vstd::arithmetic::div_mod::lemma_small_mod((b - a) as nat, 64);
    } else if b < a {
        vstd::arithmetic::div_mod::lemma_sub_mod_noop(base + a, base + b, 64);
        vstd::arithmetic::div_mod::lemma_small_mod((a - b) as nat, 64);
    }
}

/// What a level's slots and the wheel's time `now` say of the first slot that a scan finds
/// after `k` empty ones: it holds the level's earliest slot, and no entry of the level lies
/// in an earlier one.
pub open spec fn found_slot(ss: Seq<Seq<WheelEntry>>, level: nat, now: u64, slot: nat, deadline: int) -> bool {
    &&& forall|j: int| 0 <= j < ss[(level * 64 + slot) as int].len() ==> slot_start((#[trigger] ss[(level * 64 + slot) as int][j]).1, level) == deadline
    &&& forall|i: int, j: int| level * 64 <= i < level * 64 + 64 && 0 <= j < ss[i].len() ==> slot_start((#[trigger] ss[i][j]).1, level) >= deadline
    &&& deadline >= now
    &&& level < 5 ==> deadline / slot_width(level + 1) as int == now as int / slot_width(level + 1) as int
    &&& level == 5 ==> deadline > now
}

proof fn lemma_found_slot(ss: Seq<Seq<WheelEntry>>, level: nat, now: u64, first: int, k: int, slot: nat, deadline: int)
    requires
        ss.len() == NUM_SLOTS,
        level <= 5,
        first == if level == 5 { 1int } else { 0int },
        0 <= k < 64,
        slot == ((now as int / slot_width(level) as int) % 64 + first + k) % 64,
        forall|m: int| 0 <= m < k ==> (#[trigger] ss[level * 64 + ((now as int / slot_width(level) as int) % 64 + first + m) % 64]).len() == 0,
        ss[(level * 64 + slot) as int].len() > 0,
        forall|i: int, j: int| level * 64 <= i < level * 64 + 64 && 0 <= j < ss[i].len() ==> placed((#[trigger] ss[i][j]).1, level, (i % 64) as nat, now),
        ({
            let w = slot_width(level) as int;
            let level_start = now as int - now as int % (64 * w);
            let d0 = level_start + slot * w;
            deadline == if d0 < now || (d0 == now && level == 5) { d0 + 64 * w } else { d0 }
        }),
    ensures
        found_slot(ss, level, now, slot, deadline),
{
    lemma_width_facts(level);
    let w = slot_width(level) as int;
    let cur = now as int / w;
    let ns = cur % 64;
    let qs = cur + first + k;
    let idx = (level * 64 + slot) as int;
    assert(idx % 64 == slot && idx / 64 == level) by (nonlinear_arith)
        requires
            idx == level * 64 + slot,
            slot < 64,
    ;
    // Every entry of the level lies at an offset of at least `k`; those of the found slot at `k`.
    assert forall|i: int, j: int| level * 64 <= i < level * 64 + 64 && 0 <= j < ss[i].len() implies (#[trigger] ss[i][j]).1 as int
        / w >= qs && (i == idx ==> ss[i][j].1 as int / w == qs) by {
        let y = ss[i][j].1;
        assert(i / 64 == level && 0 <= i % 64 < 64) by (nonlinear_arith)
            requires
                level * 64 <= i < level * 64 + 64,
        ;
        lemma_scan_offset(y, level, (i % 64) as nat, now);
        let off = scan_offset(y, level, now);
        if off < k {
            assert(level * 64 + (ns + first + off) % 64 == i) by (nonlinear_arith)
                requires
                    i % 64 == (ns + first + off) % 64,
                    i / 64 == level,
            ;
            assert(ss[level * 64 + (ns + first + off) % 64].len() == 0);
        }
        if i == idx {
            lemma_offset_unique(ns + first, off, k);
        }
    }
    let y0 = ss[idx][0].1;
    assert(y0 as int / w == qs);
    vstd::arithmetic::div_mod::lemma_fundamental_div_mod(now as int, w);
    lemma_level_start(now as int, w);
    assert((now as int) < (cur + 1) * w && cur * w <= now as int) by (nonlinear_arith)
        requires
            now as int == w * cur + now as int % w,
            0 <= now as int % w < w,
    ;
    lemma_scan_offset(y0, level, slot, now);
    let level_start = now as int - now as int % (64 * w);
    assert(level_start == (cur - ns) * w);
    if ns + first + k < 64 {
        vstd::arithmetic::div_mod::lemma_small_mod((ns + first + k) as nat, 64);
        assert(level_start + slot * w == qs * w) by (nonlinear_arith)
            requires
                level_start == (cur - ns) * w,
                slot == ns + first + k,
                qs == cur + first + k,
        ;
        if qs == cur {
            assert(level < 5);
            assert(placed(y0, level, slot, now));
            assert(now as int == cur * w);
        } else {
            assert(qs * w >= (cur + 1) * w) by (nonlinear_arith)
                requires
                    qs >= cur + 1,
                    w > 0,
            ;
        }
        assert(deadline == qs * w);
    } else {
        assert(level == 5) by {
            if level < 5 {
                assert(placed(y0, level, slot, now));
                lemma_same_block(qs, cur);
            }
        }
        vstd::arithmetic::div_mod::lemma_mod_sub_multiples_vanish(ns + first + k, 64);
        vstd::arithmetic::div_mod::lemma_small_mod((ns + first + k - 64) as nat, 64);
        assert(level_start + slot * w == (qs - 64) * w) by (nonlinear_arith)
            requires
                level_start == (cur - ns) * w,
                slot == ns + first + k - 64,
                qs == cur + first + k,
        ;
        assert((qs - 64) * w <= cur * w) by (nonlinear_arith)
            requires
                qs - 64 <= cur,
                w > 0,
        ;
        assert((qs - 64) * w + 64 * w == qs * w) by (nonlinear_arith);
        assert(level_start + slot * w <= now as int);
        assert(deadline == qs * w);
    }
    assert forall|i: int, j: int| level * 64 <= i < level * 64 + 64 && 0 <= j < ss[i].len() implies slot_start(
        (#[trigger] ss[i][j]).1,
        level,
    ) >= deadline by {
        let q = ss[i][j].1 as int / w;
        assert(q * w >= qs * w) by (nonlinear_arith)
            requires
                q >= qs,
                w > 0,
        ;
    }
    if level < 5 {
        assert(placed(y0, level, slot, now));
        vstd::arithmetic::div_mod::lemma_div_multiples_vanish(qs, w);
        lemma_level_start(deadline, w);
        assert(deadline / (64 * w) == qs / 64);
    }
}

/// Rounding up to a wider slot never gives an earlier point.
proof fn lemma_round_up(t: int, l1: nat, l2: nat)
    requires
        t >= 0,
        l1 <= l2 <= 6,
    ensures
        (t / slot_width(l1) as int + 1) * slot_width(l1) as int <= (t / slot_width(l2) as int + 1) * slot_width(l2) as int,
    decreases l2 - l1,
{
    if l1 < l2 {
        lemma_round_up(t, l1, (l2 - 1) as nat);
        let a = slot_width((l2 - 1) as nat) as int;
        reveal_with_fuel(slot_width, 2);
        assert(slot_width(l2) == 64 * slot_width((l2 - 1) as nat));
        vstd::arithmetic::power2::lemma_pow2_pos(6 * (l2 - 1) as nat);
        lemma_pow2_width((l2 - 1) as nat);
        lemma_level_start(t, a);
        vstd::arithmetic::div_mod::lemma_fundamental_div_mod(t / a, 64);
        let b = 64 * a;
        assert((t / a + 1) * a <= (t / b + 1) * b) by (nonlinear_arith)
            requires
                t / b == (t / a) / 64,
                t / a == 64 * ((t / a) / 64) + (t / a) % 64,
                0 <= (t / a) % 64 < 64,
                a > 0,
                b == 64 * a,
        ;
    }
}

/// Every entry of the slots `ss` sits where a wheel whose time is `now` looks for it.
pub open spec fn placed_all(ss: Seq<Seq<WheelEntry>>, now: u64) -> bool {
    forall|i: int, j: int|
        0 <= i < NUM_SLOTS && 0 <= j < ss[i].len() ==> placed((#[trigger] ss[i][j]).1, (i / 64) as nat, (i % 64) as nat, now)
}

/// No level above the lowest holds an entry in the slot of the time `now`.
pub open spec fn settled_at(ss: Seq<Seq<WheelEntry>>, now: u64) -> bool {
    forall|i: int, j: int|
        64 <= i < NUM_SLOTS && 0 <= j < ss[i].len() ==> !current((#[trigger] ss[i][j]).1, (i / 64) as nat, now)
}

/// A level above the lowest holds an entry in the slot of the time `now` only while all
/// levels below it are empty.
pub open spec fn layered_at(ss: Seq<Seq<WheelEntry>>, now: u64) -> bool {
    forall|i: int, j: int, i2: int|
        64 <= i < NUM_SLOTS && 0 <= j < ss[i].len() && current((#[trigger] ss[i][j]).1, (i / 64) as nat, now) && 0 <= i2
            < (i / 64) * 64 ==> (#[trigger] ss[i2]).len() == 0
}

/// An entry of a level above the lowest non-empty one lies after that level's deadline,
/// and the slot of the wheel's time at its level reaches past that deadline.
proof fn lemma_above_lowest(ss: Seq<Seq<WheelEntry>>, now: u64, lowest: nat, slot: nat, deadline: int, i: int, j: int)
    requires
        ss.len() == NUM_SLOTS,
        lowest < 5,
        slot < 64,
        ss[(lowest * 64 + slot) as int].len() > 0,
        placed_all(ss, now),
        layered_at(ss, now),
        found_slot(ss, lowest, now, slot, deadline),
        (lowest + 1) * 64 <= i < NUM_SLOTS,
        0 <= j < ss[i].len(),
    ensures
        ({
            let l = (i / 64) as nat;
            let w = slot_width(l) as int;
            &&& !current(ss[i][j].1, l, now)
            &&& ss[i][j].1 as int >= (now as int / w + 1) * w
            &&& deadline < (now as int / w + 1) * w
        }),
{
    let l = (i / 64) as nat;
    assert(lowest < l <= 5 && l * 64 <= i) by (nonlinear_arith)
        requires
            (lowest + 1) * 64 <= i < 384,
            l == i / 64,
    ;
    lemma_width_facts(l);
    lemma_width_facts(lowest);
    let w = slot_width(l) as int;
    let due = ss[i][j].1;
    let idx = (lowest * 64 + slot) as int;
    assert(idx < l * 64) by (nonlinear_arith)
        requires
            idx == lowest * 64 + slot,
            slot < 64,
            lowest < l,
    ;
    if current(due, l, now) {
        assert(ss[idx].len() == 0);
    }
    assert(placed(due, l, (i % 64) as nat, now));
    vstd::arithmetic::div_mod::lemma_div_is_ordered(now as int, due as int, w);
    vstd::arithmetic::div_mod::lemma_fundamental_div_mod(due as int, w);
    assert(due as int / w >= now as int / w + 1);
    assert(due as int >= (now as int / w + 1) * w) by (nonlinear_arith)
        requires
            due as int / w >= now as int / w + 1,
            due as int == w * (due as int / w) + due as int % w,
            due as int % w >= 0,
            w > 0,
    ;
    let a = slot_width(lowest + 1) as int;
    vstd::arithmetic::div_mod::lemma_fundamental_div_mod(deadline, a);
    vstd::arithmetic::div_mod::lemma_fundamental_div_mod(now as int, a);
    assert(deadline < (now as int / a + 1) * a) by (nonlinear_arith)
        requires
            deadline / a == now as int / a,
            deadline == a * (deadline / a) + deadline % a,
            deadline % a < a,
    ;
    lemma_round_up(now as int, lowest + 1, l);
}

/// Two times on either side of nothing in a slot of width `w` fall in the same slot.
proof fn lemma_same_slot(a: int, b: int, c: int, w: int)
    requires
        0 <= a <= b <= c,
        w > 0,
        a / w == c / w,
    ensures
        b / w == a / w,
{
    vstd::arithmetic::div_mod::lemma_div_is_ordered(a, b, w);
    vstd::arithmetic::div_mod::lemma_div_is_ordered(b, c, w);
}

/// Where nothing is due before `deadline`, the lowest level's, the wheel's time can move on
/// to any `t` before it: every entry then still sits where the wheel looks for it, none is
/// in the slot of `t` above the lowest level, and all are due after `t`.
proof fn lemma_advance(ss: Seq<Seq<WheelEntry>>, now: u64, t: u64, lowest: nat, slot: nat, deadline: int)
    requires
        ss.len() == NUM_SLOTS,
        lowest <= 5,
        slot < 64,
        ss[(lowest * 64 + slot) as int].len() > 0,
        forall|i: int| 0 <= i < lowest * 64 ==> (#[trigger] ss[i]).len() == 0,
        placed_all(ss, now),
        layered_at(ss, now),
        found_slot(ss, lowest, now, slot, deadline),
        now <= t < deadline,
    ensures
        placed_all(ss, t),
        settled_at(ss, t),
        forall|i: int, j: int| 0 <= i < NUM_SLOTS && 0 <= j < ss[i].len() ==> (#[trigger] ss[i][j]).1 > t,
{
    assert forall|i: int, j: int| 0 <= i < NUM_SLOTS && 0 <= j < ss[i].len() implies placed((#[trigger] ss[i][j]).1, (i / 64) as nat, (i % 64) as nat, t)
        && (64 <= i ==> !current(ss[i][j].1, (i / 64) as nat, t)) && ss[i][j].1 > t by {
        let l = (i / 64) as nat;
        assert(l <= 5);
        lemma_width_facts(l);
        let w = slot_width(l) as int;
        let due = ss[i][j].1;
        let q = due as int / w;
        assert(placed(due, l, (i % 64) as nat, now));
        if i < lowest * 64 {
            assert(ss[i].len() == 0);
        }
        assert(l >= lowest) by (nonlinear_arith)
            requires
                i >= lowest * 64,
                l == i / 64,
        ;
        vstd::arithmetic::div_mod::lemma_fundamental_div_mod(due as int, w);
        vstd::arithmetic::div_mod::lemma_fundamental_div_mod(t as int, w);
        if l == lowest {
            assert(l * 64 <= i < l * 64 + 64) by (nonlinear_arith)
                requires
                    l == i / 64,
                    0 <= i,
            ;
            assert(slot_start(due, l) >= deadline);
            assert(q * w > t as int);
            assert(q > t as int / w) by (nonlinear_arith)
                requires
                    q * w > t as int,
                    t as int == w * (t as int / w) + t as int % w,
                    t as int % w >= 0,
                    w > 0,
            ;
            if l < 5 {
                let a = slot_width(l + 1) as int;
                lemma_same_slot(now as int, t as int, deadline, a);
                lemma_level_start(t as int, w);
                lemma_level_start(now as int, w);
                assert(a == 64 * w);
            }
        } else {
            assert(lowest < 5);
            assert((lowest + 1) * 64 <= i) by (nonlinear_arith)
                requires
                    i / 64 > lowest,
                    i >= 0,
            ;
            lemma_above_lowest(ss, now, lowest, slot, deadline, i, j);
            vstd::arithmetic::div_mod::lemma_fundamental_div_mod(now as int, w);
            assert((now as int / w) * w <= now as int) by (nonlinear_arith)
                requires
                    now as int == w * (now as int / w) + now as int % w,
                    now as int % w >= 0,
            ;
            assert(t as int / w == now as int / w) by {
                let c = (now as int / w + 1) * w - 1;
                assert(c / w == now as int / w) by {
                    vstd::arithmetic::div_mod::lemma_fundamental_div_mod(c, w);
                    assert(c == w * (now as int / w) + (w - 1)) by (nonlinear_arith)
                        requires
                            c == (now as int / w + 1) * w - 1,
                    ;
                    vstd::arithmetic::div_mod::lemma_div_multiples_vanish_fancy(now as int / w, w - 1, w);
                }
                lemma_same_slot(now as int, t as int, c, w);
            }
        }
    }
}

/// The entry `x`, now in the slot with index `i`, was there before, or is one of the slot
/// with index `idx` at `level` moved down to the slot of its deadline one level lower.
pub open spec fn moved_entry(before: Seq<Seq<WheelEntry>>, x: WheelEntry, i: int, level: nat, idx: int) -> bool {
    ||| i != idx && before[i].contains(x)
    ||| i / 64 == level - 1 && i % 64 == (x.1 as int / slot_width((level - 1) as nat) as int) % 64 && before[idx].contains(x)
}

/// `after` is `before` with the slot with index `idx` at `level` emptied into the level below.
pub open spec fn moved_down(before: Seq<Seq<WheelEntry>>, after: Seq<Seq<WheelEntry>>, level: nat, idx: int) -> bool {
    &&& after.len() == NUM_SLOTS
    &&& after[idx].len() == 0
    &&& forall|i: int, j: int| 0 <= i < NUM_SLOTS && 0 <= j < after[i].len() ==> moved_entry(before, #[trigger] after[i][j], i, level, idx)
}

/// After the lowest non-empty level's first slot, due at `deadline`, has been emptied into
/// the level below, and the wheel's time moved on to `deadline`, every entry sits where the
/// wheel looks for it, and the levels stay layered.
proof fn lemma_cascade_step(ss0: Seq<Seq<WheelEntry>>, ss1: Seq<Seq<WheelEntry>>, now: u64, level: nat, slot: nat, deadline: u64)
    requires
        ss0.len() == NUM_SLOTS,
        1 <= level <= 5,
        slot < 64,
        ss0[(level * 64 + slot) as int].len() > 0,
        forall|i: int| 0 <= i < level * 64 ==> (#[trigger] ss0[i]).len() == 0,
        placed_all(ss0, now),
        layered_at(ss0, now),
        found_slot(ss0, level, now, slot, deadline as int),
        moved_down(ss0, ss1, level, (level * 64 + slot) as int),
    ensures
        placed_all(ss1, deadline),
        layered_at(ss1, deadline),
{
    let idx = (level * 64 + slot) as int;
    assert(idx / 64 == level && idx % 64 == slot) by (nonlinear_arith)
        requires
            idx == level * 64 + slot,
            slot < 64,
    ;
    lemma_width_facts(level);
    lemma_width_facts((level - 1) as nat);
    let w = slot_width(level) as int;
    let w1 = slot_width((level - 1) as nat) as int;
    assert(w == 64 * w1);
    let y0 = ss0[idx][0];
    assert(slot_start(y0.1, level) == deadline);
    let qs = y0.1 as int / w;
    assert(deadline as int == qs * w);
    vstd::arithmetic::div_mod::lemma_div_multiples_vanish(qs, w);
    assert(qs * w == w * qs) by (nonlinear_arith);
    assert(deadline as int / w == qs);
    assert forall|i: int| 0 <= i < (level - 1) * 64 implies (#[trigger] ss1[i]).len() == 0 by {
        if ss1[i].len() > 0 {
            assert(moved_entry(ss0, ss1[i][0], i, level, idx));
            assert(i < level * 64);
            assert(ss0[i].len() == 0);
            assert(i / 64 < level - 1) by (nonlinear_arith)
                requires
                    0 <= i < (level - 1) * 64,
            ;
        }
    }
    assert forall|i: int, j: int| 0 <= i < NUM_SLOTS && 0 <= j < ss1[i].len() implies placed(
        (#[trigger] ss1[i][j]).1,
        (i / 64) as nat,
        (i % 64) as nat,
        deadline,
    ) && (64 <= i && current(ss1[i][j].1, (i / 64) as nat, deadline) ==> i / 64 == level - 1) by {
        let x = ss1[i][j];
        let due = x.1;
        assert(moved_entry(ss0, x, i, level, idx));
        if i != idx && ss0[i].contains(x) {
            let j0 = choose|j0: int| 0 <= j0 < ss0[i].len() && ss0[i][j0] == x;
            let l = (i / 64) as nat;
            assert(placed(due, l, (i % 64) as nat, now));
            if i < level * 64 {
                assert(ss0[i].len() == 0);
            }
            assert(l >= level) by (nonlinear_arith)
                requires
                    i >= level * 64,
                    l == i / 64,
            ;
            if l == level {
                assert(level * 64 <= i < level * 64 + 64) by (nonlinear_arith)
                    requires
                        l == i / 64,
                        l == level,
                        i >= 0,
                ;
                let q = due as int / w;
                assert(slot_start(due, level) >= deadline);
                assert(q * w >= qs * w);
                assert(q >= qs) by (nonlinear_arith)
                    requires
                        q * w >= qs * w,
                        w > 0,
                ;
                assert(q != qs) by {
                    if q == qs {
                        assert(placed(y0.1, level, slot, now));
                        assert(i % 64 == q % 64);
                        assert(slot == qs % 64);
                        assert(i == idx) by (nonlinear_arith)
                            requires
                                i / 64 == level,
                                idx / 64 == level,
                                i % 64 == idx % 64,
                        ;
                    }
                }
                vstd::arithmetic::div_mod::lemma_fundamental_div_mod(due as int, w);
                assert(due as int >= (qs + 1) * w) by (nonlinear_arith)
                    requires
                        q >= qs + 1,
                        due as int == w * q + due as int % w,
                        due as int % w >= 0,
                        w > 0,
                ;
                if level < 5 {
                    lemma_level_start(deadline as int, w);
                    lemma_level_start(now as int, w);
                    assert(slot_width(level + 1) == 64 * w);
                    assert(q / 64 == qs / 64);
                }
                assert((qs + 1) * w >= qs * w) by (nonlinear_arith)
                    requires
                        w > 0,
                ;
                assert(due as int >= deadline as int);
                assert(due >= deadline);
                assert(!current(due, level, deadline));
                assert(placed(due, l, (i % 64) as nat, deadline));
            } else {
                assert(level < 5);
                assert((level + 1) * 64 <= i) by (nonlinear_arith)
                    requires
                        i / 64 > level,
                        i >= 0,
                ;
                lemma_above_lowest(ss0, now, level, slot, deadline as int, i, j0);
                lemma_width_facts(l);
                let wl = slot_width(l) as int;
                vstd::arithmetic::div_mod::lemma_fundamental_div_mod(now as int, wl);
                assert((now as int / wl) * wl <= now as int) by (nonlinear_arith)
                    requires
                        now as int == wl * (now as int / wl) + now as int % wl,
                        now as int % wl >= 0,
                ;
                assert(deadline as int / wl == now as int / wl) by {
                    let c = (now as int / wl + 1) * wl - 1;
                    vstd::arithmetic::div_mod::lemma_fundamental_div_mod(c, wl);
                    assert(c == wl * (now as int / wl) + (wl - 1)) by (nonlinear_arith)
                        requires
                            c == (now as int / wl + 1) * wl - 1,
                    ;
                    vstd::arithmetic::div_mod::lemma_div_multiples_vanish_fancy(now as int / wl, wl - 1, wl);
                    lemma_same_slot(now as int, deadline as int, c, wl);
                }
                assert(!current(due, l, deadline));
                assert(placed(due, l, (i % 64) as nat, deadline));
            }
        } else {
            assert(i / 64 == level - 1);
            let j0 = choose|j0: int| 0 <= j0 < ss0[idx].len() && ss0[idx][j0] == x;
            assert(slot_start(due, level) == deadline);
            let q = due as int / w;
            assert(q == qs) by (nonlinear_arith)
                requires
                    q * w == qs * w,
                    w > 0,
            ;
            vstd::arithmetic::div_mod::lemma_fundamental_div_mod(due as int, w);
            assert(w * q == qs * w) by (nonlinear_arith)
                requires
                    q == qs,
            ;
            assert(due as int >= deadline as int);
            lemma_level_start(due as int, w1);
            lemma_level_start(deadline as int, w1);
            assert(w1 * 64 == w);
            vstd::arithmetic::div_mod::lemma_div_multiples_vanish(64 * qs, w1);
            assert(deadline as int == w1 * (64 * qs)) by (nonlinear_arith)
                requires
                    deadline as int == qs * w,
                    w == 64 * w1,
            ;
            assert(deadline as int / w1 == 64 * qs);
            assert(placed(due, (level - 1) as nat, (i % 64) as nat, deadline));
        }
    }
    assert forall|i: int, j: int, i2: int| 64 <= i < NUM_SLOTS && 0 <= j < ss1[i].len() && current(
        (#[trigger] ss1[i][j]).1,
        (i / 64) as nat,
        deadline,
    ) && 0 <= i2 < (i / 64) * 64 implies (#[trigger] ss1[i2]).len() == 0 by {
        assert(i / 64 == level - 1);
    }
}

/// Why an entry could not be put in the wheel.
#[derive(Clone, Copy, Debug, PartialEq, Eq, Structural)]
pub enum InsertError {
    /// Its deadline is not after the wheel's time.
    Elapsed,
    /// Its deadline lies further ahead than the wheel reaches.
    Invalid,
}

/// Whether an entry due at `when` can go in a wheel whose time is `elapsed`.
pub open spec fn insert_outcome(elapsed: u64, when: u64) -> Result<(), InsertError> {
    if when <= elapsed {
        Err(InsertError::Elapsed)
    } else if when - elapsed > MAX_DURATION {
        Err(InsertError::Invalid)
    } else {
        Ok(())
    }
}

/// The level at which an entry due at `when` is kept while the wheel's time is `elapsed`:
/// one sixth of the highest bit in which the two differ (bits below six count as the
/// sixth), at most the top level.
pub open spec fn level_for_spec(elapsed: u64, when: u64) -> int {
    let significant = 63 - vstd::std_specs::bits::u64_leading_zeros((elapsed ^ when) | 63u64);
    if significant / 6 < NUM_LEVELS as int {
        significant / 6
    } else {
        NUM_LEVELS - 1
    }
}

proof fn lemma_pow2_width(level: nat)
    requires
        level <= 6,
    ensures
        vstd::arithmetic::power2::pow2(6 * level) == slot_width(level),
{
    reveal_with_fuel(slot_width, 7);
    vstd::arithmetic::power2::lemma2_to64();
    vstd::arithmetic::power2::lemma2_to64_rest();
}

/// Where `level_for` puts an entry due after the wheel's time: below the top level, in
/// the level-wide block that holds the wheel's time; above the lowest level, in a later
/// slot than the one the wheel's time falls in.
proof fn lemma_level_for(elapsed: u64, due: u64)
    requires
        elapsed < due,
    ensures
        0 <= level_for_spec(elapsed, due) <= 5,
        ({
            let l = level_for_spec(elapsed, due) as nat;
            &&& l < 5 ==> due as int / slot_width(l + 1) as int == elapsed as int / slot_width(l + 1) as int
            &&& l > 0 ==> due as int / slot_width(l) as int > elapsed as int / slot_width(l) as int
        }),
{
    let masked = (elapsed ^ due) | 63u64;
    vstd::std_specs::bits::axiom_u64_leading_zeros(masked);
    assert(masked != 0) by (bit_vector)
        requires
            masked == (elapsed ^ due) | 63u64,
    ;
    let lz = vstd::std_specs::bits::u64_leading_zeros(masked);
    assert(0 <= lz < 64);
    let sig = (63 - lz) as u64;
    let l = level_for_spec(elapsed, due) as nat;
    if l < 5 {
        let k = (6 * l + 6) as u64;
        let t = (64 - lz) as u64;
        assert(sig / 6 == l);
        assert(t == sig + 1);
        assert(k >= t);
        assert((masked >> t) == 0u64);
        assert((masked >> k) == 0u64) by (bit_vector)
            requires
                (masked >> t) == 0u64,
                k >= t,
                k < 64,
        ;
        assert((elapsed >> k) == (due >> k)) by (bit_vector)
            requires
                masked == (elapsed ^ due) | 63u64,
                (masked >> k) == 0u64,
                k >= 6,
                k < 64,
        ;
        vstd::bits::lemma_u64_shr_is_div(elapsed, k);
        vstd::bits::lemma_u64_shr_is_div(due, k);
        lemma_pow2_width(l + 1);
    }
    if l > 0 {
        let k = (6 * l) as u64;
        assert(k <= sig);
        assert(sig >= 6);
        assert(((masked >> sig) & 1u64) != 0u64);
        assert((elapsed >> k) != (due >> k)) by (bit_vector)
            requires
                masked == (elapsed ^ due) | 63u64,
                ((masked >> sig) & 1u64) != 0u64,
                sig >= 6,
                sig < 64,
                k <= sig,
        ;
        vstd::bits::lemma_u64_shr_is_div(elapsed, k);
        vstd::bits::lemma_u64_shr_is_div(due, k);
        lemma_pow2_width(l);
        let w = slot_width(l) as int;
        vstd::arithmetic::power2::lemma_pow2_pos(6 * l);
        assert(w > 0);
        assert(elapsed as int / w <= due as int / w) by (nonlinear_arith)
            requires
                elapsed < due,
                w > 0,
        ;
    }
}

/// An entry put in at the level that `level_for` gives sits where the wheel looks for it.
proof fn lemma_insert_placed(elapsed: u64, due: u64)
    requires
        elapsed < due,
        due - elapsed <= MAX_DURATION,
    ensures
        ({
            let l = level_for_spec(elapsed, due) as nat;
            &&& placed(due, l, ((due as int / slot_width(l) as int) % 64) as nat, elapsed)
            &&& l > 0 ==> !current(due, l, elapsed)
        }),
{
    lemma_level_for(elapsed, due);
    let l = level_for_spec(elapsed, due) as nat;
    lemma_pow2_width(l);
    lemma_pow2_width(l + 1);
    vstd::arithmetic::power2::lemma_pow2_pos(6 * l);
    reveal_with_fuel(slot_width, 7);
    let w = slot_width(l) as int;
    assert(slot_width(l + 1) == 64 * slot_width(l));
    let q = due as int / w;
    let cur = elapsed as int / w;
    if l < 5 {
        vstd::arithmetic::div_mod::lemma_div_denominator(due as int, w, 64);
        vstd::arithmetic::div_mod::lemma_div_denominator(elapsed as int, w, 64);
        assert(w * 64 == slot_width(l + 1));
        assert(q / 64 == cur / 64);
    }
    if l == 0 {
        assert(w == 1);
        assert(due as int / 1 == due as int) by (nonlinear_arith);
        assert(elapsed as int / 1 == elapsed as int) by (nonlinear_arith);
        assert(q == due && cur == elapsed);
    }
    if l == 5 {
        assert(w == 1_073_741_824);
        assert(due - elapsed < 64 * w);
    }
    assert(placed(due, l, (q % 64) as nat, elapsed));
}

/// The level at which an entry due at `when` is kept while the wheel's time is `elapsed`.
pub fn level_for(elapsed: u64, when: u64) -> (r: usize)
    ensures
        r == level_for_spec(elapsed, when),
        r < NUM_LEVELS,
{
    let masked = (elapsed ^ when) | 63u64;
    let leading_zeros = masked.leading_zeros();
    proof {
        vstd::std_specs::bits::axiom_u64_leading_zeros(masked);
        assert(masked != 0) by (bit_vector)
            requires
                masked == (elapsed ^ when) | 63u64,
        ;
    }
    let significant = 63 - leading_zeros as usize;
    let level = significant / 6;
    if level < NUM_LEVELS {
        level
    } else {
        NUM_LEVELS - 1
    }
}

/// The width of a slot at `level`.
pub fn slot_range(level: usize) -> (r: u64)
    requires
        level < NUM_LEVELS,
    ensures
        r == slot_width(level as nat),
        1 <= r <= 1_073_741_824,
{
    proof {
        reveal_with_fuel(slot_width, 6);
    }
    match level {
        0 => 1,
        1 => 64,
        2 => 4_096,
        3 => 262_144,
        4 => 16_777_216,
        _ => 1_073_741_824,
    }
}

/// The span of a whole level: 64 of its slots.
pub fn level_range(level: usize) -> (r: u64)
    requires
        level < NUM_LEVELS,
    ensures
        r == LEVEL_MULT * slot_width(level as nat),
        64 <= r <= 68_719_476_736,
{
    proof {
        reveal_with_fuel(slot_width, 6);
    }
    LEVEL_MULT as u64 * slot_range(level)
}

/// The slot at `level` of an entry due at `when`.
pub fn slot_for(when: u64, level: usize) -> (r: usize)
    requires
        level < NUM_LEVELS,
    ensures
        r == ((when as int) / (slot_width(level as nat) as int)) % 64,
        r < LEVEL_MULT,
{
    ((when / slot_range(level)) % (LEVEL_MULT as u64)) as usize
}

/// The next slot of a level to be processed, and when.
#[derive(Clone, Copy, Debug, PartialEq, Eq, Structural)]
pub struct Expiration {
    pub level: usize,
    pub slot: usize,
    pub deadline: u64,
}

/// A hierarchical timing wheel: six levels of 64 slots; a slot at level `l` spans 64^l
/// milliseconds. Each slot is a queue of entries: they leave it in the order they came.
#[derive(Debug)]
pub struct Wheel {
    elapsed: u64,
    slots: Vec<Vec<WheelEntry>>,
}

impl Wheel {
    pub closed spec fn elapsed_spec(&self) -> u64 {
        self.elapsed
    }

    pub closed spec fn slots_spec(&self) -> Seq<Seq<WheelEntry>> {
        Seq::new(self.slots@.len(), |i: int| self.slots@[i]@)
    }

    /// The entries that the wheel holds.
    pub open spec fn entries(&self) -> Multiset<WheelEntry> {
        contents(self.slots_spec())
    }

    /// Six levels of 64 slots, and a time that leaves room for slot deadlines.
    pub open spec fn shaped(&self) -> bool {
        &&& self.slots_spec().len() == NUM_SLOTS
        &&& self.elapsed_spec() <= WHEEL_TIME_LIMIT
    }

    /// Every entry sits where the wheel looks for it (see `placed`).
    pub open spec fn all_placed(&self) -> bool {
        placed_all(self.slots_spec(), self.elapsed_spec())
    }

    /// No level above the lowest holds an entry in the slot of the wheel's time.
    pub open spec fn settled(&self) -> bool {
        settled_at(self.slots_spec(), self.elapsed_spec())
    }

    pub open spec fn wf(&self) -> bool {
        &&& self.shaped()
        &&& self.all_placed()
        &&& self.settled()
    }

    /// No entry of the wheel is due before the wheel's time.
    pub proof fn lemma_entries_not_before(&self)
        requires
            self.wf(),
        ensures
            forall|x: WheelEntry| self.entries().count(x) > 0 ==> x.1 >= self.elapsed_spec(),
    {
        assert forall|x: WheelEntry| self.entries().count(x) > 0 implies x.1 >= self.elapsed_spec() by {
            let ss = self.slots_spec();
            lemma_contents_in_slot(ss, x);
            let i = choose|i: int| 0 <= i < ss.len() && (#[trigger] ss[i]).contains(x);
            let j = choose|j: int| 0 <= j < ss[i].len() && ss[i][j] == x;
            assert(placed(ss[i][j].1, (i / 64) as nat, (i % 64) as nat, self.elapsed_spec()));
        }
    }

    /// An empty wheel at time zero.
    pub fn new() -> (r: Wheel)
        ensures
            r.wf(),
            r.elapsed_spec() == 0,
            r.entries() =~= Multiset::empty(),
    {
        let mut slots: Vec<Vec<WheelEntry>> = Vec::new();
        let mut i: usize = 0;
        while i < NUM_SLOTS
            invariant
                i <= NUM_SLOTS,
                slots@.len() == i,
                forall|j: int| 0 <= j < i ==> (#[trigger] slots@[j])@.len() == 0,
            decreases NUM_SLOTS - i,
        {
            slots.push(Vec::new());
            i = i + 1;
        }
        let r = Wheel { elapsed: 0, slots };
        proof {
            assert forall|j: int| 0 <= j < r.slots_spec().len() implies (#[trigger] r.slots_spec()[j]).len() == 0 by {
                assert(r.slots_spec()[j] == slots@[j]@);
            }
            lemma_all_empty(r.slots_spec());
        }
        r
    }

    /// The wheel's time, in milliseconds.
    pub fn elapsed(&self) -> (r: u64)
        ensures
            r == self.elapsed_spec(),
    {
        self.elapsed
    }

    /// Puts an entry at the back of the slot with index `idx`.
    fn push_slot(&mut self, idx: usize, e: WheelEntry)
        requires
            old(self).shaped(),
            idx < NUM_SLOTS,
        ensures
            final(self).shaped(),
            final(self).elapsed_spec() == old(self).elapsed_spec(),
            final(self).slots_spec() == old(self).slots_spec().update(idx as int, old(self).slots_spec()[idx as int].push(e)),
            final(self).entries() =~= old(self).entries().insert(e),
            weight(final(self).slots_spec()) == weight(old(self).slots_spec()) + idx / LEVEL_MULT,
    {
        let ghost s0 = self.slots_spec();
        let mut slot: Vec<WheelEntry> = Vec::new();
        self.slots.set_and_swap(idx, &mut slot);
        assert(slot@ =~= s0[idx as int]);
        slot.push(e);
        self.slots.set_and_swap(idx, &mut slot);
        proof {
            assert(self.slots_spec() =~= s0.update(idx as int, s0[idx as int].push(e)));
            lemma_update(s0, idx as int, s0[idx as int].push(e));
            broadcast use vstd::seq_lib::group_to_multiset_ensures;

            assert(s0[idx as int].push(e).to_multiset() =~= s0[idx as int].to_multiset().insert(e));
            broadcast use vstd::multiset::group_multiset_axioms;

            let m = s0[idx as int].to_multiset();
            assert forall|x: WheelEntry| #[trigger] self.entries().count(x) == contents(s0).insert(e).count(x) by {
                assert(self.entries().add(m).count(x) == contents(s0).add(m.insert(e)).count(x));
            }
            assert((idx / LEVEL_MULT) as int * (s0[idx as int].len() + 1) == (idx / LEVEL_MULT) as int
                * s0[idx as int].len() + (idx / LEVEL_MULT) as int) by (nonlinear_arith);
        }
    }

    /// Takes the entry at position `j` out of the slot with index `idx`.
    fn remove_from_slot(&mut self, idx: usize, j: usize) -> (r: WheelEntry)
        requires
            old(self).shaped(),
            idx < NUM_SLOTS,
            j < old(self).slots_spec()[idx as int].len(),
        ensures
            final(self).shaped(),
            r == old(self).slots_spec()[idx as int][j as int],
            final(self).elapsed_spec() == old(self).elapsed_spec(),
            final(self).slots_spec() == old(self).slots_spec().update(idx as int, old(self).slots_spec()[idx as int].remove(j as int)),
            final(self).entries() =~= old(self).entries().remove(r),
            old(self).entries().count(r) > 0,
    {
        let ghost s0 = self.slots_spec();
        let mut slot: Vec<WheelEntry> = Vec::new();
        self.slots.set_and_swap(idx, &mut slot);
        assert(slot@ =~= s0[idx as int]);
        let e = slot.remove(j);
        self.slots.set_and_swap(idx, &mut slot);
        proof {
            assert(self.slots_spec() =~= s0.update(idx as int, s0[idx as int].remove(j as int)));
            lemma_update(s0, idx as int, s0[idx as int].remove(j as int));
            broadcast use vstd::seq_lib::group_to_multiset_ensures;

            assert(s0[idx as int].remove(j as int).to_multiset() =~= s0[idx as int].to_multiset().remove(e));
            broadcast use vstd::multiset::group_multiset_axioms;

            let m = s0[idx as int].to_multiset();
            assert(m.count(e) > 0);
            assert forall|x: WheelEntry| #[trigger] self.entries().count(x) == contents(s0).remove(e).count(x) by {
                assert(self.entries().add(m).count(x) == contents(s0).add(m.remove(e)).count(x));
            }
            assert(s0[idx as int].contains(e));
            lemma_slot_in_contents(s0, idx as int, e);
        }
        e
    }

    /// Puts `item`, due at `when`, in the wheel.
    pub fn insert(&mut self, when: u64, item: usize) -> (r: Result<(), InsertError>)
        requires
            old(self).wf(),
        ensures
            final(self).wf(),
            final(self).elapsed_spec() == old(self).elapsed_spec(),
            r == insert_outcome(old(self).elapsed_spec(), when),
            r is Ok ==> final(self).entries() =~= old(self).entries().insert((item, when)),
            r is Err ==> final(self).entries() == old(self).entries(),
    {
        if when <= self.elapsed {
            return Err(InsertError::Elapsed);
        } else if when - self.elapsed > MAX_DURATION {
            return Err(InsertError::Invalid);
        }
        let level = level_for(self.elapsed, when);
        let ghost s0 = self.slots_spec();
        self.add_entry(level, when, item);
        proof {
            lemma_insert_placed(old(self).elapsed_spec(), when);
            let idx = level * 64 + (when as int / slot_width(level as nat) as int) % 64;
            assert(idx / 64 == level && idx % 64 == (when as int / slot_width(level as nat) as int) % 64);
            assert forall|i: int, j: int| 0 <= i < NUM_SLOTS && 0 <= j < self.slots_spec()[i].len() implies placed(
                (#[trigger] self.slots_spec()[i][j]).1,
                (i / 64) as nat,
                (i % 64) as nat,
                self.elapsed_spec(),
            ) && (64 <= i ==> !current(self.slots_spec()[i][j].1, (i / 64) as nat, self.elapsed_spec())) by {
                if i != idx || j < s0[i].len() {
                    assert(self.slots_spec()[i][j] == s0[i][j]);
                }
            }
        }
        Ok(())
    }

    /// Puts `item`, due at `when`, at the back of its slot at `level`.
    fn add_entry(&mut self, level: usize, when: u64, item: usize)
        requires
            old(self).shaped(),
            level < NUM_LEVELS,
        ensures
            final(self).shaped(),
            final(self).elapsed_spec() == old(self).elapsed_spec(),
            final(self).entries() =~= old(self).entries().insert((item, when)),
            weight(final(self).slots_spec()) == weight(old(self).slots_spec()) + level,
            final(self).slots_spec() == old(self).slots_spec().update(
                level * 64 + (when as int / slot_width(level as nat) as int) % 64,
                old(self).slots_spec()[level * 64 + (when as int / slot_width(level as nat) as int) % 64].push((item, when)),
            ),
    {
        let slot = slot_for(when, level);
        let idx = level * LEVEL_MULT + slot;
        assert((idx as int) / 64 == level) by (nonlinear_arith)
            requires
                idx == level * 64 + slot,
                slot < 64,
        ;
        self.push_slot(idx, (item, when));
    }

    /// Finds `e` in the slot with index `idx`.
    fn find_in_slot(&self, idx: usize, e: WheelEntry) -> (r: Option<usize>)
        requires
            self.shaped(),
            idx < NUM_SLOTS,
        ensures
            r.is_some() ==> r.unwrap() < self.slots_spec()[idx as int].len() && self.slots_spec()[idx as int][r.unwrap() as int] == e,
            r.is_none() ==> !self.slots_spec()[idx as int].contains(e),
    {
        let slot = &self.slots[idx];
        assert(slot@ == self.slots_spec()[idx as int]);
        let mut j: usize = 0;
        while j < slot.len()
            invariant
                j <= slot@.len(),
                slot@ == self.slots_spec()[idx as int],
                forall|k: int| 0 <= k < j ==> slot@[k] != e,
            decreases slot@.len() - j,
        {
            if slot[j].0 == e.0 && slot[j].1 == e.1 {
                return Some(j);
            }
            j = j + 1;
        }
        None
    }

    /// Takes the entry of `item`, due at `when`, out of the wheel.
    pub fn remove(&mut self, item: usize, when: u64)
        requires
            old(self).wf(),
            old(self).entries().count((item, when)) > 0,
        ensures
            final(self).wf(),
            final(self).elapsed_spec() == old(self).elapsed_spec(),
            final(self).entries() =~= old(self).entries().remove((item, when)),
    {
        let e = (item, when);
        let level = level_for(self.elapsed, when);
        let home = level * LEVEL_MULT + slot_for(when, level);
        assert(home < NUM_SLOTS) by (nonlinear_arith)
            requires
                home == level * 64 + (home - level * 64),
                0 <= home - level * 64 < 64,
                level < 6,
        ;
        if let Some(j) = self.find_in_slot(home, e) {
            let r = self.remove_from_slot(home, j);
            assert(r == e);
            return;
        }
        match self.find(e) {
            Some((idx, j)) => {
                let r = self.remove_from_slot(idx, j);
                assert(r == e);
            },
            None => {
                proof {
                    lemma_contents_in_slot(self.slots_spec(), e);
                }
            },
        }
    }

    /// Finds `e` in any slot: the slot's index and the position in it.
    fn find(&self, e: WheelEntry) -> (r: Option<(usize, usize)>)
        requires
            self.shaped(),
        ensures
            r.is_some() ==> r.unwrap().0 < NUM_SLOTS && r.unwrap().1 < self.slots_spec()[r.unwrap().0 as int].len()
                && self.slots_spec()[r.unwrap().0 as int][r.unwrap().1 as int] == e,
            r.is_none() ==> forall|k: int| 0 <= k < NUM_SLOTS ==> !(#[trigger] self.slots_spec()[k]).contains(e),
    {
        let mut idx: usize = 0;
        while idx < NUM_SLOTS
            invariant
                self.shaped(),
                idx <= NUM_SLOTS,
                forall|k: int| 0 <= k < idx ==> !(#[trigger] self.slots_spec()[k]).contains(e),
            decreases NUM_SLOTS - idx,
        {
            if let Some(j) = self.find_in_slot(idx, e) {
                return Some((idx, j));
            }
            idx = idx + 1;
        }
        None
    }

    /// The next slot of `level` to be processed after the time `now`, if the level holds
    /// anything: the first non-empty slot going round from the one that `now` falls in.
    /// Below the top level that slot itself comes first (what it holds is due at `now`);
    /// at the top level it comes last, as what it holds there lies a whole turn ahead.
    fn level_next_expiration(&self, level: usize, now: u64) -> (r: Option<Expiration>)
        requires
            self.shaped(),
            level < NUM_LEVELS,
            now <= WHEEL_TIME_LIMIT,
        ensures
            r.is_none() ==> forall|s: int|
                0 <= s < LEVEL_MULT ==> (#[trigger] self.slots_spec()[level * LEVEL_MULT + s]).len() == 0,
            r.is_some() ==> r.unwrap().level == level && r.unwrap().slot < LEVEL_MULT && self.slots_spec()[level
                * LEVEL_MULT + r.unwrap().slot].len() > 0 && r.unwrap().deadline <= now + 2 * 68_719_476_736,
            r.is_some() && now == self.elapsed_spec() && self.all_placed() ==> found_slot(
                self.slots_spec(),
                level as nat,
                now,
                r.unwrap().slot as nat,
                r.unwrap().deadline as int,
            ),
    {
        let slot_range = slot_range(level);
        let level_range = level_range(level);
        let now_slot = ((now / slot_range) % (LEVEL_MULT as u64)) as usize;
        let first: usize = if level == NUM_LEVELS - 1 {
            1
        } else {
            0
        };
        let mut k: usize = 0;
        while k < LEVEL_MULT
            invariant
                self.shaped(),
                level < NUM_LEVELS,
                now_slot < LEVEL_MULT,
                now_slot == (now as int / slot_width(level as nat) as int) % 64,
                slot_range == slot_width(level as nat),
                level_range == 64 * slot_width(level as nat),
                first == if level == 5 { 1usize } else { 0usize },
                k <= LEVEL_MULT,
                now <= WHEEL_TIME_LIMIT,
                1 <= slot_range <= 1_073_741_824,
                64 <= level_range <= 68_719_476_736,
                forall|m: int|
                    0 <= m < k ==> (#[trigger] self.slots_spec()[level * LEVEL_MULT + (now_slot + first + m) % 64]).len() == 0,
            decreases LEVEL_MULT - k,
        {
            let slot = (now_slot + first + k) % LEVEL_MULT;
            let idx = level * LEVEL_MULT + slot;
            assert(idx < NUM_SLOTS) by (nonlinear_arith)
                requires
                    idx == level * 64 + slot,
                    slot < 64,
                    level < 6,
            ;
            assert(self.slots@[idx as int]@ == self.slots_spec()[idx as int]);
            if self.slots[idx].len() > 0 {
                assert(now % level_range <= now) by (nonlinear_arith)
                    requires
                        level_range > 0,
                ;
                let level_start = now - now % level_range;
                assert(slot as u64 * slot_range <= 63 * 1_073_741_824) by (nonlinear_arith)
                    requires
                        slot < 64,
                        slot_range <= 1_073_741_824,
                ;
                let mut deadline = level_start + slot as u64 * slot_range;
                if deadline < now || (deadline == now && level == NUM_LEVELS - 1) {
                    deadline = deadline + level_range;
                }
                proof {
                    if now == self.elapsed_spec() && self.all_placed() {
                        let ss = self.slots_spec();
                        assert forall|i: int, j: int| level * 64 <= i < level * 64 + 64 && 0 <= j < ss[i].len() implies placed(
                            (#[trigger] ss[i][j]).1,
                            level as nat,
                            (i % 64) as nat,
                            now,
                        ) by {
                            assert(i / 64 == level) by (nonlinear_arith)
                                requires
                                    level * 64 <= i < level * 64 + 64,
                            ;
                        }
                        lemma_found_slot(ss, level as nat, now, first as int, k as int, slot as nat, deadline as int);
                    }
                }
                return Some(Expiration { level, slot, deadline });
            }
            k = k + 1;
        }
        proof {
            assert forall|s: int| 0 <= s < LEVEL_MULT implies (#[trigger] self.slots_spec()[level * LEVEL_MULT + s]).len() == 0 by {
                let m = (s - now_slot - first + 128) % 64;
                assert((now_slot + first + m) % 64 == s);
                assert(self.slots_spec()[level * LEVEL_MULT + (now_slot + first + m) % 64].len() == 0);
            }
        }
        None
    }

    /// The next slot to be processed: the one of the lowest level that holds anything.
    fn next_expiration(&self) -> (r: Option<Expiration>)
        requires
            self.shaped(),
        ensures
            r.is_none() ==> self.entries() =~= Multiset::empty(),
            r.is_none() ==> forall|i: int| 0 <= i < NUM_SLOTS ==> (#[trigger] self.slots_spec()[i]).len() == 0,
            r.is_some() ==> forall|i: int| 0 <= i < r.unwrap().level * 64 ==> (#[trigger] self.slots_spec()[i]).len() == 0,
            r.is_some() && self.all_placed() ==> found_slot(
                self.slots_spec(),
                r.unwrap().level as nat,
                self.elapsed_spec(),
                r.unwrap().slot as nat,
                r.unwrap().deadline as int,
            ),
            r.is_some() ==> r.unwrap().level < NUM_LEVELS && r.unwrap().slot < LEVEL_MULT && self.slots_spec()[r.unwrap().level
                * LEVEL_MULT + r.unwrap().slot].len() > 0 && r.unwrap().deadline <= self.elapsed_spec() + 2
                * 68_719_476_736,
    {
        let mut level: usize = 0;
        while level < NUM_LEVELS
            invariant
                self.shaped(),
                level <= NUM_LEVELS,
                forall|i: int| 0 <= i < level * LEVEL_MULT ==> (#[trigger] self.slots_spec()[i]).len() == 0,
            decreases NUM_LEVELS - level,
        {
            match self.level_next_expiration(level, self.elapsed) {
                Some(e) => {
                    return Some(e);
                },
                None => {
                    assert forall|i: int| 0 <= i < (level + 1) * LEVEL_MULT implies (#[trigger] self.slots_spec()[i]).len() == 0 by {
                        if i >= level * LEVEL_MULT {
                            assert(self.slots_spec()[level * LEVEL_MULT + (i - level * LEVEL_MULT)].len() == 0);
                        }
                    }
                },
            }
            level = level + 1;
        }
        proof {
            lemma_all_empty(self.slots_spec());
        }
        None
    }

    /// When the wheel next has work: the deadline of the next slot to be processed, or
    /// `None` when it is empty.
    pub fn poll_at(&self) -> (r: Option<u64>)
        requires
            self.wf(),
        ensures
            r.is_none() <==> self.entries() =~= Multiset::empty(),
            r.is_some() ==> r.unwrap() >= self.elapsed_spec(),
            r.is_some() ==> forall|x: WheelEntry| self.entries().count(x) > 0 ==> r.unwrap() <= x.1,
            r.is_some() && (forall|x: WheelEntry| self.entries().count(x) > 0 ==> x.1 > self.elapsed_spec()) ==> r.unwrap()
                > self.elapsed_spec(),
    {
        match self.next_expiration() {
            Some(e) => {
                proof {
                    let ss = self.slots_spec();
                    let idx = e.level * LEVEL_MULT + e.slot;
                    let x = ss[idx][0];
                    assert(ss[idx].contains(x));
                    lemma_slot_in_contents(ss, idx, x);
                    assert(self.entries().count(x) > 0);
                    assert(Multiset::<WheelEntry>::empty().count(x) == 0);
                    if e.deadline == self.elapsed_spec() && (forall|z: WheelEntry| self.entries().count(z) > 0 ==> z.1 > self.elapsed_spec()) {
                        let l = e.level as nat;
                        lemma_width_facts(l);
                        let w = slot_width(l) as int;
                        assert(found_slot(ss, l, self.elapsed_spec(), e.slot as nat, e.deadline as int));
                        assert((l * 64 + e.slot as nat) as int == idx);
                        assert(ss[(l * 64 + e.slot as nat) as int][0] == x);
                        assert(slot_start(x.1, l) == e.deadline);
                        assert(idx / 64 == e.level && idx % 64 == e.slot) by (nonlinear_arith)
                            requires
                                idx == e.level * 64 + e.slot,
                                e.slot < 64,
                        ;
                        if l == 0 {
                            reveal_with_fuel(slot_width, 1);
                            assert(w == 1);
                            assert(x.1 as int / 1 == x.1 as int) by (nonlinear_arith);
                            assert((x.1 as int / 1) * 1 == x.1 as int) by (nonlinear_arith);
                            assert(x.1 == self.elapsed_spec());
                        } else {
                            let q = x.1 as int / w;
                            vstd::arithmetic::div_mod::lemma_div_multiples_vanish(q, w);
                            assert(q * w == w * q) by (nonlinear_arith);
                            assert(self.elapsed_spec() as int / w == q);
                            assert(current(x.1, l, self.elapsed_spec()));
                            assert(64 <= idx);
                            assert(!current(ss[idx][0].1, (idx / 64) as nat, self.elapsed_spec()));
                        }
                    }
                    assert forall|y: WheelEntry| self.entries().count(y) > 0 implies e.deadline <= y.1 by {
                        lemma_contents_in_slot(ss, y);
                        let i = choose|i: int| 0 <= i < ss.len() && (#[trigger] ss[i]).contains(y);
                        let j = choose|j: int| 0 <= j < ss[i].len() && ss[i][j] == y;
                        let l = (i / 64) as nat;
                        lemma_width_facts(l);
                        let w = slot_width(l) as int;
                        vstd::arithmetic::div_mod::lemma_fundamental_div_mod(y.1 as int, w);
                        assert(slot_start(y.1, l) <= y.1 as int) by (nonlinear_arith)
                            requires
                                slot_start(y.1, l) == (y.1 as int / w) * w,
                                y.1 as int == w * (y.1 as int / w) + y.1 as int % w,
                                y.1 as int % w >= 0,
                        ;
                        if i < e.level * 64 {
                            assert(ss[i].len() == 0);
                        }
                        if l == e.level {
                            assert(e.level * 64 <= i < e.level * 64 + 64) by (nonlinear_arith)
                                requires
                                    l == i / 64,
                                    l == e.level,
                                    i >= 0,
                            ;
                        } else {
                            assert(l > e.level) by (nonlinear_arith)
                                requires
                                    i >= e.level * 64,
                                    l == i / 64,
                                    l != e.level,
                            ;
                            assert((e.level + 1) * 64 <= i) by (nonlinear_arith)
                                requires
                                    i / 64 > e.level,
                                    i >= 0,
                            ;
                            assert(layered_at(ss, self.elapsed_spec())) by {
                                assert forall|i1: int, j1: int, i2: int| 64 <= i1 < NUM_SLOTS && 0 <= j1 < ss[i1].len() && current(
                                    (#[trigger] ss[i1][j1]).1,
                                    (i1 / 64) as nat,
                                    self.elapsed_spec(),
                                ) && 0 <= i2 < (i1 / 64) * 64 implies (#[trigger] ss[i2]).len() == 0 by {}
                            }
                            lemma_above_lowest(ss, self.elapsed_spec(), e.level as nat, e.slot as nat, e.deadline as int, i, j);
                        }
                    }
                }
                Some(e.deadline)
            },
            None => None,
        }
    }

    /// Moves the wheel's time on to `t`, never back.
    fn set_elapsed(&mut self, t: u64)
        requires
            old(self).shaped(),
            t <= WHEEL_TIME_LIMIT,
        ensures
            final(self).shaped(),
            final(self).elapsed_spec() == if t > old(self).elapsed_spec() { t } else { old(self).elapsed_spec() },
            final(self).slots_spec() == old(self).slots_spec(),
    {
        if t > self.elapsed {
            self.elapsed = t;
        }
    }

    /// Empties the slot of a level above the lowest and puts each of its entries, front
    /// first, in the level below.
    fn cascade(&mut self, level: usize, slot: usize)
        requires
            old(self).shaped(),
            0 < level < NUM_LEVELS,
            slot < LEVEL_MULT,
            old(self).slots_spec()[level * LEVEL_MULT + slot].len() > 0,
        ensures
            final(self).shaped(),
            final(self).elapsed_spec() == old(self).elapsed_spec(),
            final(self).entries() =~= old(self).entries(),
            weight(final(self).slots_spec()) < weight(old(self).slots_spec()),
            moved_down(old(self).slots_spec(), final(self).slots_spec(), level as nat, (level * 64 + slot) as int),
    {
        let idx = level * LEVEL_MULT + slot;
        assert(idx < NUM_SLOTS && (idx as int) / 64 == level) by (nonlinear_arith)
            requires
                idx == level * 64 + slot,
                slot < 64,
                level < 6,
        ;
        let ghost s0 = self.slots_spec();
        let mut items: Vec<WheelEntry> = Vec::new();
        self.slots.set_and_swap(idx, &mut items);
        assert(items@ =~= s0[idx as int]);
        proof {
            assert(self.slots_spec() =~= s0.update(idx as int, Seq::empty()));
            lemma_update(s0, idx as int, Seq::empty());
            broadcast use vstd::seq_lib::group_to_multiset_ensures;

            assert(Seq::<WheelEntry>::empty().to_multiset() =~= Multiset::empty());
            assert(contents(self.slots_spec()).add(items@.to_multiset()) =~= contents(s0));
        }
        assert(items@.skip(0) =~= items@);
        proof {
            assert forall|i: int, j2: int| 0 <= i < NUM_SLOTS && 0 <= j2 < self.slots_spec()[i].len() implies moved_entry(
                s0,
                (#[trigger] self.slots_spec()[i][j2]),
                i,
                level as nat,
                idx as int,
            ) by {
                assert(i != idx);
                assert(self.slots_spec()[i][j2] == s0[i][j2]);
            }
        }
        let ghost w1 = weight(self.slots_spec());
        assert(w1 + level * items@.len() == weight(s0));
        let mut j: usize = 0;
        while j < items.len()
            invariant
                self.shaped(),
                self.elapsed_spec() == old(self).elapsed_spec(),
                0 < level < NUM_LEVELS,
                j <= items@.len(),
                items@.len() > 0,
                contents(self.slots_spec()).add(items@.skip(j as int).to_multiset()) =~= contents(s0),
                weight(self.slots_spec()) == w1 + (level - 1) * j,
                w1 + level * items@.len() == weight(s0),
                items@ == s0[idx as int],
                idx == level * 64 + slot,
                idx / 64 == level,
                self.slots_spec().len() == NUM_SLOTS,
                moved_down(s0, self.slots_spec(), level as nat, idx as int),
            decreases items@.len() - j,
        {
            let e = items[j];
            let ghost before = contents(self.slots_spec());
            let ghost ss_before = self.slots_spec();
            self.add_entry(level - 1, e.1, e.0);
            proof {
                let t = (level - 1) * 64 + (e.1 as int / slot_width((level - 1) as nat) as int) % 64;
                assert(t / 64 == level - 1 && t % 64 == (e.1 as int / slot_width((level - 1) as nat) as int) % 64) by (nonlinear_arith)
                    requires
                        t == (level - 1) * 64 + (e.1 as int / slot_width((level - 1) as nat) as int) % 64,
                        0 <= (e.1 as int / slot_width((level - 1) as nat) as int) % 64 < 64,
                ;
                assert(t != idx);
                assert(items@.contains(e));
                assert forall|i: int, j2: int| 0 <= i < NUM_SLOTS && 0 <= j2 < self.slots_spec()[i].len() implies moved_entry(
                    s0,
                    (#[trigger] self.slots_spec()[i][j2]),
                    i,
                    level as nat,
                    idx as int,
                ) by {
                    if i != t || j2 < ss_before[i].len() {
                        assert(self.slots_spec()[i][j2] == ss_before[i][j2]);
                    }
                }
            }
            proof {
                broadcast use vstd::seq_lib::group_to_multiset_ensures;

                assert(items@.skip(j as int).remove(0) =~= items@.skip(j as int + 1));
                assert(items@.skip(j as int)[0] == e);
                assert(items@.skip(j as int + 1).to_multiset() =~= items@.skip(j as int).to_multiset().remove(e));
                assert(items@.skip(j as int).to_multiset().count(e) > 0);
                assert((level - 1) * (j + 1) == (level - 1) * j + (level - 1)) by (nonlinear_arith);
            }
            j = j + 1;
        }
        proof {
            assert(items@.skip(items@.len() as int) =~= Seq::<WheelEntry>::empty());
            broadcast use vstd::seq_lib::group_to_multiset_ensures;

            assert(items@.skip(items@.len() as int).to_multiset() =~= Multiset::empty());
            assert((level - 1) * items@.len() < level * items@.len()) by (nonlinear_arith)
                requires
                    items@.len() > 0,
                    level > 0,
            ;
        }
    }

    /// Advances the wheel's time towards `now` and hands out one entry due by then, if
    /// there is one, taking it out of the wheel; `None` only where nothing is due by `now`.
    pub fn poll(&mut self, now: u64) -> (r: Option<WheelEntry>)
        requires
            old(self).wf(),
            now <= WHEEL_TIME_LIMIT,
        ensures
            final(self).wf(),
            final(self).elapsed_spec() >= old(self).elapsed_spec(),
            r.is_none() ==> final(self).entries() =~= old(self).entries(),
            r.is_none() ==> forall|x: WheelEntry| old(self).entries().count(x) > 0 ==> x.1 > now,
            r.is_none() ==> final(self).elapsed_spec() == if now >= old(self).elapsed_spec() {
                now
            } else {
                old(self).elapsed_spec()
            },
            r.is_some() ==> old(self).entries().count(r.unwrap()) > 0 && r.unwrap().1 <= now && final(self).entries()
                =~= old(self).entries().remove(r.unwrap()),
            r.is_some() ==> forall|x: WheelEntry| old(self).entries().count(x) > 0 ==> r.unwrap().1 <= x.1,
            final(self).elapsed_spec() == old(self).elapsed_spec() || final(self).elapsed_spec() <= now,
    {
        proof {
            assert forall|i: int, j: int, i2: int| 64 <= i < NUM_SLOTS && 0 <= j < self.slots_spec()[i].len() && current(
                (#[trigger] self.slots_spec()[i][j]).1,
                (i / 64) as nat,
                self.elapsed_spec(),
            ) && 0 <= i2 < (i / 64) * 64 implies (#[trigger] self.slots_spec()[i2]).len() == 0 by {}
        }
        loop
            invariant
                self.shaped(),
                self.all_placed(),
                layered_at(self.slots_spec(), self.elapsed_spec()),
                self.elapsed_spec() > now ==> self.settled(),
                self.elapsed_spec() == old(self).elapsed_spec() || self.elapsed_spec() <= now,
                now <= WHEEL_TIME_LIMIT,
                self.elapsed_spec() >= old(self).elapsed_spec(),
                self.entries() =~= old(self).entries(),
            decreases weight(self.slots_spec()),
        {
            match self.next_expiration() {
                None => {
                    self.set_elapsed(now);
                    proof {
                        assert(forall|x: WheelEntry| old(self).entries().count(x) == 0);
                    }
                    return None;
                },
                Some(e) => {
                    let ghost ss0 = self.slots_spec();
                    let ghost e0 = self.elapsed_spec();
                    if e.deadline > now {
                        proof {
                            let lowest = e.level as nat;
                            assert forall|i: int| 0 <= i < lowest * 64 implies (#[trigger] ss0[i]).len() == 0 by {}
                            if now >= e0 {
                                lemma_advance(ss0, e0, now, lowest, e.slot as nat, e.deadline as int);
                            }
                            assert forall|i: int, j: int| 0 <= i < NUM_SLOTS && 0 <= j < ss0[i].len() implies (#[trigger] ss0[i][j]).1
                                > now by {
                                if now < e0 {
                                    assert(placed(ss0[i][j].1, (i / 64) as nat, (i % 64) as nat, e0));
                                }
                            }
                            assert forall|x: WheelEntry| old(self).entries().count(x) > 0 implies x.1 > now by {
                                lemma_contents_in_slot(ss0, x);
                                let i = choose|i: int| 0 <= i < ss0.len() && (#[trigger] ss0[i]).contains(x);
                                let j = choose|j: int| 0 <= j < ss0[i].len() && ss0[i][j] == x;
                                assert(ss0[i][j].1 > now);
                            }
                        }
                        self.set_elapsed(now);
                        return None;
                    }
                    if e.level == 0 {
                        let idx = e.slot;
                        assert(self.slots@[idx as int]@ == self.slots_spec()[idx as int]);
                        let r = self.remove_from_slot(idx, 0);
                        proof {
                            assert(slot_start(r.1, 0) == e.deadline);
                            reveal_with_fuel(slot_width, 1);
                            assert((r.1 as int / 1) * 1 == r.1 as int) by (nonlinear_arith);
                            assert(r.1 == e.deadline);
                            assert(layered_at(ss0, e0));
                            assert forall|x: WheelEntry| old(self).entries().count(x) > 0 implies r.1 <= x.1 by {
                                lemma_contents_in_slot(ss0, x);
                                let i = choose|i: int| 0 <= i < ss0.len() && (#[trigger] ss0[i]).contains(x);
                                let j = choose|j: int| 0 <= j < ss0[i].len() && ss0[i][j] == x;
                                if i < 64 {
                                    assert(slot_start(x.1, 0) >= e.deadline);
                                    assert((x.1 as int / 1) * 1 == x.1 as int) by (nonlinear_arith);
                                } else {
                                    assert((0 + 1) * 64 <= i);
                                    lemma_above_lowest(ss0, e0, 0, e.slot as nat, e.deadline as int, i, j);
                                }
                            }
                            reveal_with_fuel(slot_width, 1);
                            assert(r.1 as int / 1 == r.1 as int) by (nonlinear_arith);
                            let ss1 = self.slots_spec();
                            assert forall|i: int, j: int| 0 <= i < NUM_SLOTS && 0 <= j < ss1[i].len() implies placed(
                                (#[trigger] ss1[i][j]).1,
                                (i / 64) as nat,
                                (i % 64) as nat,
                                self.elapsed_spec(),
                            ) && (64 <= i ==> !current(ss1[i][j].1, (i / 64) as nat, self.elapsed_spec())) by {
                                let x = ss1[i][j];
                                let j0 = if i == idx { j + 1 } else { j };
                                assert(ss1[i][j] == ss0[i][j0]);
                                if 64 <= i && current(x.1, (i / 64) as nat, e0) {
                                    assert(ss0[idx as int].len() == 0);
                                }
                            }
                        }
                        return Some(r);
                    }
                    self.cascade(e.level, e.slot);
                    self.set_elapsed(e.deadline);
                    proof {
                        assert forall|i: int| 0 <= i < e.level * 64 implies (#[trigger] ss0[i]).len() == 0 by {}
                        lemma_cascade_step(ss0, self.slots_spec(), e0, e.level as nat, e.slot as nat, e.deadline);
                    }
                },
            }
        }
    }
}

} // verus!
