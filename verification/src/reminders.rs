use vstd::prelude::*;
use vstd::utf8::encode_utf8;
use crate::text::{chars_of, string_of, text, trim, trim_chars};

verus! {

/// The longest reminder text, in UTF-8 bytes.
pub const MAX_TEXT_BYTES: usize = 512;

/// A reminder: what to say, and when (seconds since the Unix epoch).
#[derive(Debug, Clone)]
pub struct Reminder {
    pub id: u64,
    pub text: String,
    pub when_unix: u64,
}

/// A reminder as the contracts see it.
pub struct ReminderView {
    pub id: u64,
    pub text: Seq<char>,
    pub when_unix: u64,
}

impl View for Reminder {
    type V = ReminderView;

    open spec fn view(&self) -> ReminderView {
        ReminderView { id: self.id, text: self.text@, when_unix: self.when_unix }
    }
}

/// The views of a sequence of reminders.
pub open spec fn reminder_views(rs: Seq<Reminder>) -> Seq<ReminderView> {
    rs.map_values(|r: Reminder| r@)
}

/// The largest id, or 0 where there is none.
pub open spec fn max_id(rs: Seq<ReminderView>) -> u64
    decreases rs.len(),
{
    if rs.len() == 0 {
        0
    } else {
        let m = max_id(rs.drop_last());
        if rs.last().id > m {
            rs.last().id
        } else {
            m
        }
    }
}

/// The id that a new reminder gets: one more than the largest, saturating.
pub open spec fn next_id(rs: Seq<ReminderView>) -> u64 {
    if max_id(rs) == u64::MAX {
        u64::MAX
    } else {
        (max_id(rs) + 1) as u64
    }
}

/// The reminders due at `now` (`when_unix <= now`), in order.
pub open spec fn due(rs: Seq<ReminderView>, now: u64) -> Seq<ReminderView>
    decreases rs.len(),
{
    if rs.len() == 0 {
        rs
    } else if rs.last().when_unix <= now {
        due(rs.drop_last(), now).push(rs.last())
    } else {
        due(rs.drop_last(), now)
    }
}

/// The reminders not yet due at `now`, in order.
pub open spec fn pending(rs: Seq<ReminderView>, now: u64) -> Seq<ReminderView>
    decreases rs.len(),
{
    if rs.len() == 0 {
        rs
    } else if rs.last().when_unix > now {
        pending(rs.drop_last(), now).push(rs.last())
    } else {
        pending(rs.drop_last(), now)
    }
}

/// Why `create` refuses a reminder, as the message shown to the user; `None` where it accepts it.
pub open spec fn create_error(text: Seq<char>, when_unix: u64, now: u64) -> Option<Seq<char>> {
    let t = trim(text);
    if t.len() == 0 {
        Some("reminder text cannot be empty"@)
    } else if encode_utf8(t).len() > MAX_TEXT_BYTES {
        Some("reminder text is too long"@)
    } else if when_unix <= now {
        Some("reminder time must be in the future"@)
    } else {
        None
    }
}

/// The current time, in whole seconds since the Unix epoch (0 if the clock is
/// before it): `SystemTime::now` measured from `UNIX_EPOCH`. It depends on the
/// clock, so nothing is stated of it.
#[verifier::external_body]
fn unix_now() -> u64 {
    match std::time::SystemTime::now().duration_since(std::time::UNIX_EPOCH) {
        Ok(d) => d.as_secs(),
        Err(_) => 0,
    }
}

/// The reminders that are waiting to be delivered.
pub struct ReminderStore {
    reminders: Vec<Reminder>,
}

impl View for ReminderStore {
    type V = Seq<ReminderView>;

    closed spec fn view(&self) -> Seq<ReminderView> {
        reminder_views(self.reminders@)
    }
}

impl ReminderStore {
    /// A store holding the given reminders, in that order.
    pub fn from_reminders(reminders: Vec<Reminder>) -> (r: Self)
        ensures
            r@ == reminder_views(reminders@),
    {
        ReminderStore { reminders }
    }

    /// A copy of the reminders, in order.
    pub fn reminders(&self) -> (r: Vec<Reminder>)
        ensures
            reminder_views(r@) == self@,
    {
        let mut r: Vec<Reminder> = Vec::new();
        let mut i: usize = 0;
        while i < self.reminders.len()
            invariant
                i <= self.reminders.len(),
                reminder_views(r@) == self@.take(i as int),
            decreases self.reminders.len() - i,
        {
            let x = &self.reminders[i];
            r.push(Reminder { id: x.id, text: x.text.clone(), when_unix: x.when_unix });
            i += 1;
            assert(self@.take(i as int) == self@.take(i - 1).push(self.reminders@[i - 1]@));
            assert(reminder_views(r@) =~= self@.take(i as int));
        }
        assert(self@.take(self.reminders.len() as int) == self@);
        r
    }

    fn largest_id(&self) -> (m: u64)
        ensures
            m == max_id(self@),
    {
        let mut m: u64 = 0;
        let mut i: usize = 0;
        while i < self.reminders.len()
            invariant
                i <= self.reminders.len(),
                m == max_id(self@.take(i as int)),
            decreases self.reminders.len() - i,
        {
            proof {
                let t = self@.take(i + 1);
                assert(t.drop_last() == self@.take(i as int));
                assert(t.last() == self.reminders@[i as int]@);
            }
            if self.reminders[i].id > m {
                m = self.reminders[i].id;
            }
            i += 1;
        }
        assert(self@.take(self.reminders.len() as int) == self@);
        m
    }

    /// Adds a reminder of `text` (trimmed) at `when_unix`, judged at time `now`:
    /// refused where the text is blank, longer than 512 UTF-8 bytes, or the time is
    /// not after `now`; else it gets the next id and is appended.
    pub fn create_at(&mut self, text: &str, when_unix: u64, now: u64) -> (r: Result<
        Reminder,
        String,
    >)
        ensures
            match create_error(text@, when_unix, now) {
                Some(e) => r matches Err(m) && m@ == e && final(self)@ == old(self)@,
                None => r matches Ok(rem) && rem@ == (ReminderView {
                    id: next_id(old(self)@),
                    text: trim(text@),
                    when_unix,
                }) && final(self)@ == old(self)@.push(rem@),
            },
    {
        let t = trim_chars(chars_of(text).as_slice());
        if t.len() == 0 {
            return Err(crate::text::text("reminder text cannot be empty"));
        }
        let ts = string_of(t.as_slice());
        if crate::text::utf8_longer_than(t.as_slice(), MAX_TEXT_BYTES) {
            return Err(crate::text::text("reminder text is too long"));
        }
        if when_unix <= now {
            return Err(crate::text::text("reminder time must be in the future"));
        }
        let m = self.largest_id();
        let id = m.saturating_add(1);
        let reminder = Reminder { id, text: ts, when_unix };
        self.reminders.push(Reminder { id, text: reminder.text.clone(), when_unix });
        assert(self@ =~= old(self)@.push(reminder@));
        Ok(reminder)
    }

    /// `create_at` at the current time.
    pub fn create(&mut self, text: &str, when_unix: u64) -> (r: Result<Reminder, String>)
        ensures
            exists|now: u64|
                match #[trigger] create_error(text@, when_unix, now) {
                    Some(e) => r matches Err(m) && m@ == e && final(self)@ == old(self)@,
                    None => r matches Ok(rem) && rem@ == (ReminderView {
                        id: next_id(old(self)@),
                        text: trim(text@),
                        when_unix,
                    }) && final(self)@ == old(self)@.push(rem@),
                },
    {
        let now = unix_now();
        self.create_at(text, when_unix, now)
    }

    /// Removes and returns the reminders due at `now`, in order; the others stay, in order.
    pub fn take_due_at(&mut self, now: u64) -> (r: Vec<Reminder>)
        ensures
            reminder_views(r@) == due(old(self)@, now),
            final(self)@ == pending(old(self)@, now),
    {
        let ghost all = self@;
        let mut due_now: Vec<Reminder> = Vec::new();
        let mut kept: Vec<Reminder> = Vec::new();
        let mut i: usize = 0;
        while i < self.reminders.len()
            invariant
                i <= self.reminders.len(),
                all == self@,
                reminder_views(due_now@) == due(all.take(i as int), now),
                reminder_views(kept@) == pending(all.take(i as int), now),
            decreases self.reminders.len() - i,
        {
            let x = &self.reminders[i];
            let copy = Reminder { id: x.id, text: x.text.clone(), when_unix: x.when_unix };
            proof {
                let t = all.take(i + 1);
                assert(t.drop_last() == all.take(i as int));
                assert(t.last() == self.reminders@[i as int]@);
            }
            if x.when_unix <= now {
                due_now.push(copy);
                assert(reminder_views(due_now@) =~= due(all.take(i as int), now).push(all[i as int]));
            } else {
                kept.push(copy);
                assert(reminder_views(kept@) =~= pending(all.take(i as int), now).push(all[i as int]));
            }
            i += 1;
        }
        assert(all.take(self.reminders.len() as int) == all);
        self.reminders = kept;
        due_now
    }

    /// `take_due_at` at the current time.
    pub fn take_due(&mut self) -> (r: Vec<Reminder>)
        ensures
            exists|now: u64|
                reminder_views(r@) == #[trigger] due(old(self)@, now) && final(self)@ == pending(
                    old(self)@,
                    now,
                ),
    {
        let now = unix_now();
        self.take_due_at(now)
    }
}


// ---------------------------------------------------------------------------
// Laws
// ---------------------------------------------------------------------------

/// Taking the due reminders loses none and invents none: every reminder is either
/// due or pending at `now`, and due ones have a time at or before `now`, pending
/// ones after it.
pub proof fn lemma_take_due_partitions(rs: Seq<ReminderView>, now: u64)
    ensures
        due(rs, now).len() + pending(rs, now).len() == rs.len(),
        forall|k: int| 0 <= k < due(rs, now).len() ==> (#[trigger] due(rs, now)[k]).when_unix <= now,
        forall|k: int| 0 <= k < pending(rs, now).len() ==> (#[trigger] pending(rs, now)[k]).when_unix > now,
        forall|k: int|
            0 <= k < rs.len() ==> (#[trigger] rs[k]).when_unix <= now ==> due(rs, now).contains(rs[k]),
        forall|k: int|
            0 <= k < rs.len() ==> (#[trigger] rs[k]).when_unix > now ==> pending(rs, now).contains(rs[k]),
    decreases rs.len(),
{
    if rs.len() > 0 {
        let t = rs.drop_last();
        lemma_take_due_partitions(t, now);
        let d = due(rs, now);
        let p = pending(rs, now);
        let dt = due(t, now);
        let pt = pending(t, now);
        assert forall|k: int| 0 <= k < d.len() implies (#[trigger] d[k]).when_unix <= now by {
            if k < dt.len() {
                assert(d[k] == dt[k]);
            }
        }
        assert forall|k: int| 0 <= k < p.len() implies (#[trigger] p[k]).when_unix > now by {
            if k < pt.len() {
                assert(p[k] == pt[k]);
            }
        }
        assert forall|k: int| 0 <= k < rs.len() && (#[trigger] rs[k]).when_unix <= now implies d.contains(rs[k]) by {
            if k < t.len() {
                assert(t[k] == rs[k]);
                let m = choose|m: int| 0 <= m < dt.len() && dt[m] == t[k];
                assert(d[m] == dt[m]);
            } else {
                assert(d[d.len() - 1] == rs[k]);
            }
        }
        assert forall|k: int| 0 <= k < rs.len() && (#[trigger] rs[k]).when_unix > now implies p.contains(rs[k]) by {
            if k < t.len() {
                assert(t[k] == rs[k]);
                let m = choose|m: int| 0 <= m < pt.len() && pt[m] == t[k];
                assert(p[m] == pt[m]);
            } else {
                assert(p[p.len() - 1] == rs[k]);
            }
        }
    }
}

/// Taking the due reminders twice at the same time: the second time finds none,
/// and keeps all that were left.
pub proof fn lemma_take_due_twice(rs: Seq<ReminderView>, now: u64)
    ensures
        due(pending(rs, now), now).len() == 0,
        pending(pending(rs, now), now) == pending(rs, now),
    decreases rs.len(),
{
    if rs.len() > 0 {
        let t = rs.drop_last();
        lemma_take_due_twice(t, now);
        if rs.last().when_unix > now {
            let p = pending(rs, now);
            assert(p.drop_last() == pending(t, now));
            assert(p.last() == rs.last());
        }
    }
}

/// A reminder that `create_at` accepts at `now` is not due at `now`.
pub proof fn lemma_created_not_due(rs: Seq<ReminderView>, text: Seq<char>, when_unix: u64, now: u64)
    requires
        create_error(text, when_unix, now) is None,
    ensures
        due(rs.push(ReminderView { id: next_id(rs), text: trim(text), when_unix }), now) == due(rs, now),
{
    let r = ReminderView { id: next_id(rs), text: trim(text), when_unix };
    assert(rs.push(r).drop_last() == rs);
}

/// The id of a new reminder is larger than every id already held, unless an id
/// already is the largest `u64`.
pub proof fn lemma_next_id_fresh(rs: Seq<ReminderView>)
    requires
        max_id(rs) < u64::MAX,
    ensures
        forall|k: int| 0 <= k < rs.len() ==> (#[trigger] rs[k]).id < next_id(rs),
{
    lemma_max_id_bounds(rs);
}

proof fn lemma_max_id_bounds(rs: Seq<ReminderView>)
    ensures
        forall|k: int| 0 <= k < rs.len() ==> (#[trigger] rs[k]).id <= max_id(rs),
    decreases rs.len(),
{
    if rs.len() > 0 {
        let t = rs.drop_last();
        lemma_max_id_bounds(t);
        assert forall|k: int| 0 <= k < rs.len() implies (#[trigger] rs[k]).id <= max_id(rs) by {
            if k < t.len() {
                assert(t[k] == rs[k]);
            }
        }
    }
}


// ---------------------------------------------------------------------------
// Runs of a store
// ---------------------------------------------------------------------------

/// One call on a reminder store: adding a reminder (as `create_at` does when it
/// accepts one), or taking the reminders due at a time (`take_due_at`).
pub enum StoreOp {
    Add(ReminderView),
    Take(u64),
}

/// The reminders a store holds after the calls `ops`, starting with `init`.
pub open spec fn held_after(init: Seq<ReminderView>, ops: Seq<StoreOp>) -> Seq<ReminderView>
    decreases ops.len(),
{
    if ops.len() == 0 {
        init
    } else {
        let h = held_after(init, ops.drop_last());
        match ops.last() {
            StoreOp::Add(r) => h.push(r),
            StoreOp::Take(now) => pending(h, now),
        }
    }
}

/// What the last of the calls `ops` hands out: the reminders due at its time, for
/// a take; nothing for an add.
pub open spec fn last_batch(init: Seq<ReminderView>, ops: Seq<StoreOp>) -> Seq<ReminderView> {
    if ops.len() == 0 {
        Seq::<ReminderView>::empty()
    } else {
        match ops.last() {
            StoreOp::Add(_) => Seq::<ReminderView>::empty(),
            StoreOp::Take(now) => due(held_after(init, ops.drop_last()), now),
        }
    }
}

/// Everything the calls `ops` hand out, batch after batch.
pub open spec fn handed_out(init: Seq<ReminderView>, ops: Seq<StoreOp>) -> Seq<ReminderView>
    decreases ops.len(),
{
    if ops.len() == 0 {
        Seq::<ReminderView>::empty()
    } else {
        handed_out(init, ops.drop_last()) + last_batch(init, ops)
    }
}

/// The reminders that the calls `ops` add, in order.
pub open spec fn added(ops: Seq<StoreOp>) -> Seq<ReminderView>
    decreases ops.len(),
{
    if ops.len() == 0 {
        Seq::<ReminderView>::empty()
    } else {
        match ops.last() {
            StoreOp::Add(r) => added(ops.drop_last()).push(r),
            StoreOp::Take(_) => added(ops.drop_last()),
        }
    }
}

/// Taking the due reminders splits the held ones: the due and the pending together
/// are exactly those held, counted with repeats.
pub proof fn lemma_take_due_multiset(rs: Seq<ReminderView>, now: u64)
    ensures
        due(rs, now).to_multiset().add(pending(rs, now).to_multiset()) == rs.to_multiset(),
    decreases rs.len(),
{
    broadcast use vstd::seq_lib::group_to_multiset_ensures;
    if rs.len() == 0 {
        assert(due(rs, now).to_multiset().add(pending(rs, now).to_multiset()) =~= rs.to_multiset());
    } else {
        let t = rs.drop_last();
        lemma_take_due_multiset(t, now);
        assert(rs == t.push(rs.last()));
        if rs.last().when_unix <= now {
            assert(due(rs, now).to_multiset() == due(t, now).to_multiset().insert(rs.last()));
        } else {
            assert(pending(rs, now).to_multiset() == pending(t, now).to_multiset().insert(rs.last()));
        }
        assert(due(rs, now).to_multiset().add(pending(rs, now).to_multiset()) =~= rs.to_multiset());
    }
}

/// Over any run of adds and takes, no reminder is lost, repeated or invented: what
/// the store started with and what was added are, counted with repeats, exactly what
/// was handed out and what is still held.
pub proof fn lemma_run_conserves(init: Seq<ReminderView>, ops: Seq<StoreOp>)
    ensures
        init.to_multiset().add(added(ops).to_multiset()) == handed_out(init, ops).to_multiset().add(
            held_after(init, ops).to_multiset(),
        ),
    decreases ops.len(),
{
    broadcast use vstd::seq_lib::group_to_multiset_ensures;
    broadcast use vstd::seq_lib::lemma_multiset_commutative;
    broadcast use vstd::multiset::group_multiset_axioms;
    if ops.len() == 0 {
        assert(init.to_multiset().add(added(ops).to_multiset()) =~= handed_out(init, ops).to_multiset().add(
            held_after(init, ops).to_multiset(),
        ));
    } else {
        let t = ops.drop_last();
        lemma_run_conserves(init, t);
        let h = held_after(init, t);
        let out = handed_out(init, t);
        match ops.last() {
            StoreOp::Add(r) => {
                assert(last_batch(init, ops) =~= Seq::<ReminderView>::empty());
                assert(handed_out(init, ops) =~= out);
                assert(added(ops).to_multiset() == added(t).to_multiset().insert(r));
                assert(held_after(init, ops).to_multiset() == h.to_multiset().insert(r));
                let lhs = init.to_multiset().add(added(ops).to_multiset());
                let rhs = handed_out(init, ops).to_multiset().add(held_after(init, ops).to_multiset());
                assert forall|x: ReminderView| #[trigger] lhs.count(x) == rhs.count(x) by {
                    assert(init.to_multiset().add(added(t).to_multiset()).count(x) == out.to_multiset().add(
                        h.to_multiset(),
                    ).count(x));
                }
                assert(init.to_multiset().add(added(ops).to_multiset()) =~= handed_out(init, ops).to_multiset().add(
                    held_after(init, ops).to_multiset(),
                ));
            },
            StoreOp::Take(now) => {
                lemma_take_due_multiset(h, now);
                assert(handed_out(init, ops) == out + due(h, now));
                assert(init.to_multiset().add(added(ops).to_multiset()) =~= handed_out(init, ops).to_multiset().add(
                    held_after(init, ops).to_multiset(),
                ));
            },
        }
    }
}

/// At each take, the reminders handed out are due at its time and every reminder
/// still held after it is not: a reminder goes out at the first take at or after
/// its time, and not before.
pub proof fn lemma_run_timing(init: Seq<ReminderView>, ops: Seq<StoreOp>, now: u64)
    requires
        ops.len() > 0,
        ops.last() == StoreOp::Take(now),
    ensures
        forall|k: int| 0 <= k < last_batch(init, ops).len() ==> (#[trigger] last_batch(init, ops)[k]).when_unix <= now,
        forall|k: int| 0 <= k < held_after(init, ops).len() ==> (#[trigger] held_after(init, ops)[k]).when_unix > now,
{
    lemma_take_due_partitions(held_after(init, ops.drop_last()), now);
}

/// A run whose last take comes at or after the time of every reminder it started
/// with or added has handed each of them out, exactly as often as it was there, and
/// holds none.
pub proof fn lemma_run_hands_out_all(init: Seq<ReminderView>, ops: Seq<StoreOp>, now: u64)
    requires
        ops.len() > 0,
        ops.last() == StoreOp::Take(now),
        forall|k: int| 0 <= k < init.len() ==> (#[trigger] init[k]).when_unix <= now,
        forall|k: int| 0 <= k < added(ops).len() ==> (#[trigger] added(ops)[k]).when_unix <= now,
    ensures
        held_after(init, ops).len() == 0,
        handed_out(init, ops).to_multiset() == init.to_multiset().add(added(ops).to_multiset()),
{
    broadcast use vstd::seq_lib::group_to_multiset_ensures;
    lemma_run_conserves(init, ops);
    lemma_run_timing(init, ops, now);
    let h = held_after(init, ops);
    if h.len() > 0 {
        let x = h[0];
        assert(h.to_multiset().count(x) > 0);
        let m = init.to_multiset().add(added(ops).to_multiset());
        assert(m.count(x) > 0);
        if init.to_multiset().count(x) > 0 {
            assert(init.contains(x));
        } else {
            assert(added(ops).contains(x));
        }
        assert(false);
    }
    assert(h =~= Seq::<ReminderView>::empty());
    assert(h.to_multiset() =~= vstd::multiset::Multiset::<ReminderView>::empty());
    assert(handed_out(init, ops).to_multiset().add(h.to_multiset()) =~= handed_out(init, ops).to_multiset());
}

} // verus!
