use vstd::prelude::*;
use crate::message::{views_of, Message, MessageView};
use crate::timestamp::Timestamp;

verus! {

/// The mathematical image of the store: its rows in insertion order and the
/// identifier the next creation will receive.
pub ghost struct StoreView {
    pub rows: Seq<MessageView>,
    pub next_id: int,
}

/// The store's invariant: identifiers start at 1, rise strictly in insertion
/// order, and stay below the next one to be issued.
pub open spec fn wf_store(s: StoreView) -> bool {
    &&& 1 <= s.next_id
    &&& forall|i: int, j: int|
        0 <= i < j < s.rows.len() ==> #[trigger] s.rows[i].id < #[trigger] s.rows[j].id
    &&& forall|i: int| 0 <= i < s.rows.len() ==> #[trigger] s.rows[i].id < s.next_id
}

/// One creation: the new message carries the issued identifier, is appended
/// after every existing row, and the next identifier moves up by one.
pub open spec fn create_step(pre: StoreView, post: StoreView, m: MessageView) -> bool {
    &&& m.id == pre.next_id
    &&& post.rows == pre.rows.push(m)
    &&& post.next_id == pre.next_id + 1
}

/// An append-only in-memory message store. It owns identity assignment and
/// creation-timestamp assignment; rows are never edited or deleted.
pub struct MessageStore {
    rows: Vec<Message>,
    next_id: i64,
}

/// First row carrying `id`, scanning in insertion order.
pub open spec fn lookup(rows: Seq<MessageView>, id: int) -> Option<MessageView>
    decreases rows.len(),
{
    if rows.len() == 0 {
        None
    } else if rows[0].id == id {
        Some(rows[0])
    } else {
        lookup(rows.drop_first(), id)
    }
}

impl View for MessageStore {
    type V = StoreView;

    closed spec fn view(&self) -> StoreView {
        StoreView { rows: views_of(self.rows@), next_id: self.next_id as int }
    }
}

impl MessageStore {
    pub open spec fn wf(&self) -> bool {
        wf_store(self@)
    }

    /// An empty store; the first message will receive identifier 1.
    pub fn new() -> (s: Self)
        ensures
            s.wf(),
            s@.rows == Seq::<MessageView>::empty(),
            s@.next_id == 1,
    {
        let s = MessageStore { rows: Vec::new(), next_id: 1 };
        proof {
            assert(s@.rows =~= Seq::<MessageView>::empty());
        }
        s
    }

    /// Appends a message at a given instant, assigning the next identifier.
    pub fn create_at(&mut self, content: String, sender: String, timestamp: Timestamp) -> (m:
        Message)
        requires
            old(self).wf(),
            old(self)@.next_id < i64::MAX,
        ensures
            final(self).wf(),
            create_step(old(self)@, final(self)@, m@),
            final(self)@.next_id == old(self)@.next_id + 1,
            m@.content == content@,
            m@.sender == sender@,
            m@.timestamp == timestamp.micros as int,
    {
        let m = Message { id: self.next_id, content, sender, timestamp };
        let ret = m.clone();
        let ghost pre = self@;
        self.rows.push(m);
        self.next_id = self.next_id + 1;
        proof {
            assert(self@.rows =~= pre.rows.push(ret@));
        }
        ret
    }

    /// Appends a message stamped with the current instant.
    ///
    /// The instant comes from the process clock, so nothing relates it to the
    /// instants of earlier rows; everything else matches `create_at`.
    pub fn create(&mut self, content: String, sender: String) -> (m: Message)
        requires
            old(self).wf(),
            old(self)@.next_id < i64::MAX,
        ensures
            final(self).wf(),
            create_step(old(self)@, final(self)@, m@),
            m@.content == content@,
            m@.sender == sender@,
    {
        let t = Timestamp { micros: now_micros() };
        self.create_at(content, sender, t)
    }

    /// Point lookup by identifier; absence is a result, not an error.
    pub fn get_by_id(&self, id: i64) -> (r: Option<Message>)
        ensures
            r matches Some(m) ==> lookup(self@.rows, id as int) == Some(m@),
            r is None ==> lookup(self@.rows, id as int) is None,
    {
        let n = self.rows.len();
        let mut i: usize = 0;
        while i < n
            invariant
                0 <= i <= n,
                n == self@.rows.len(),
                self@.rows == views_of(self.rows@),
                forall|k: int| 0 <= k < i ==> #[trigger] self@.rows[k].id != id as int,
            decreases n - i,
        {
            if self.rows[i].id == id {
                let m = self.rows[i].clone();
                proof {
                    lemma_lookup_skip(self@.rows, id as int, i as int);
                }
                return Some(m);
            }
            i = i + 1;
        }
        proof {
            lemma_lookup_skip(self@.rows, id as int, n as int);
        }
        None
    }

    /// The sole read primitive behind pagination: up to `limit` messages with
    /// timestamp strictly below the bound (or all, with no bound), newest
    /// first, ties broken by descending identifier. Keyset, not offset: no
    /// rows are skipped by position.
    pub fn query_ordered_before(&self, bound: Option<Timestamp>, limit: usize) -> (r: Vec<Message>)
        ensures
            views_of(r@) == page_spec(self@.rows, opt_micros(bound), limit as nat),
            r@.len() <= limit,
    {
        let ghost gbound = opt_micros(bound);
        let n = self.rows.len();
        let mut filtered: Vec<Message> = Vec::new();
        let mut i: usize = 0;
        proof {
            lemma_filter_rows_empty(gbound);
            assert(self@.rows.take(0) =~= Seq::<MessageView>::empty());
            assert(views_of(filtered@) =~= Seq::<MessageView>::empty());
        }
        while i < n
            invariant
                0 <= i <= n,
                n == self.rows@.len(),
                self@.rows == views_of(self.rows@),
                gbound == opt_micros(bound),
                views_of(filtered@) == filter_rows(self@.rows.take(i as int), gbound),
            decreases n - i,
        {
            let ghost pre = views_of(filtered@);
            if before_bound_exec(&self.rows[i], &bound) {
                filtered.push(self.rows[i].clone());
                proof {
                    assert(views_of(filtered@) =~= pre.push(self@.rows[i as int]));
                }
            }
            proof {
                assert(self@.rows.take(i + 1) =~= self@.rows.take(i as int).push(
                    self@.rows[i as int],
                ));
                lemma_filter_rows_push(self@.rows.take(i as int), self@.rows[i as int], gbound);
            }
            i = i + 1;
        }
        proof {
            assert(self@.rows.take(n as int) =~= self@.rows);
        }
        let ghost fv = views_of(filtered@);
        let m = filtered.len();
        let mut sorted: Vec<Message> = Vec::new();
        let mut j: usize = 0;
        proof {
            assert(fv.take(0) =~= Seq::<MessageView>::empty());
            assert(views_of(sorted@) =~= Seq::<MessageView>::empty());
        }
        while j < m
            invariant
                0 <= j <= m,
                m == filtered.len(),
                fv == views_of(filtered@),
                views_of(sorted@) == sort_desc(fv.take(j as int)),
            decreases m - j,
        {
            let e = filtered[j].clone();
            insert_sorted(&mut sorted, e);
            proof {
                assert(fv.take(j + 1).drop_last() =~= fv.take(j as int));
                assert(fv.take(j + 1).last() == fv[j as int]);
            }
            j = j + 1;
        }
        proof {
            assert(fv.take(m as int) =~= fv);
            lemma_sort_desc_len(fv);
        }
        sorted.truncate(limit);
        proof {
            if limit <= m {
                assert(views_of(sorted@) =~= sort_desc(fv).take(limit as int));
            }
        }
        sorted
    }
}

/// `a` sorts no later than `b` in a listing: strictly newer, or at the same
/// instant with the identifier no smaller. On rows with distinct identifiers
/// this is a total order, so a listing is fully determined.
pub open spec fn ord_before(a: MessageView, b: MessageView) -> bool {
    a.timestamp > b.timestamp || (a.timestamp == b.timestamp && a.id >= b.id)
}

/// Newest first, ties broken by descending identifier.
pub open spec fn sorted_desc(s: Seq<MessageView>) -> bool {
    forall|i: int, j: int| 0 <= i < j < s.len() ==> ord_before(#[trigger] s[i], #[trigger] s[j])
}

/// Inserts `m` in front of the first row it sorts no later than.
pub open spec fn insert_desc(s: Seq<MessageView>, m: MessageView) -> Seq<MessageView>
    decreases s.len(),
{
    if s.len() == 0 {
        seq![m]
    } else if ord_before(m, s[0]) {
        seq![m] + s
    } else {
        seq![s[0]] + insert_desc(s.drop_first(), m)
    }
}

/// Insertion sort into descending order; deterministic, so it pins the
/// listing completely.
pub open spec fn sort_desc(s: Seq<MessageView>) -> Seq<MessageView>
    decreases s.len(),
{
    if s.len() == 0 {
        Seq::empty()
    } else {
        insert_desc(sort_desc(s.drop_last()), s.last())
    }
}

/// Does `m` fall strictly below the exclusive upper bound, if one is set?
pub open spec fn before_bound(m: MessageView, bound: Option<int>) -> bool {
    match bound {
        None => true,
        Some(b) => m.timestamp < b,
    }
}

/// The rows that fall below the bound, still in insertion order.
pub open spec fn filter_rows(rows: Seq<MessageView>, bound: Option<int>) -> Seq<MessageView> {
    rows.filter(|m: MessageView| before_bound(m, bound))
}

/// What an ordered, bounded query returns: the rows below the bound, newest
/// first, cut off after `limit` rows.
pub open spec fn page_spec(rows: Seq<MessageView>, bound: Option<int>, limit: nat) -> Seq<
    MessageView,
> {
    let s = sort_desc(filter_rows(rows, bound));
    if limit <= s.len() {
        s.take(limit as int)
    } else {
        s
    }
}

/// The bound a caller passed, as a mathematical value.
pub open spec fn opt_micros(bound: Option<Timestamp>) -> Option<int> {
    match bound {
        None => None,
        Some(t) => Some(t.micros as int),
    }
}

pub proof fn lemma_insert_desc_len(s: Seq<MessageView>, m: MessageView)
    ensures
        insert_desc(s, m).len() == s.len() + 1,
    decreases s.len(),
{
    if s.len() > 0 && !ord_before(m, s[0]) {
        lemma_insert_desc_len(s.drop_first(), m);
    }
}

pub proof fn lemma_sort_desc_len(s: Seq<MessageView>)
    ensures
        sort_desc(s).len() == s.len(),
    decreases s.len(),
{
    if s.len() > 0 {
        lemma_sort_desc_len(s.drop_last());
        lemma_insert_desc_len(sort_desc(s.drop_last()), s.last());
    }
}

/// Every row of the inserted sequence is the new row or one of the old.
proof fn lemma_insert_desc_membership(s: Seq<MessageView>, m: MessageView)
    ensures
        forall|k: int|
            0 <= k < insert_desc(s, m).len() ==> (#[trigger] insert_desc(s, m)[k] == m
                || s.contains(insert_desc(s, m)[k])),
    decreases s.len(),
{
    if s.len() == 0 {
    } else if ord_before(m, s[0]) {
        assert forall|k: int| 0 <= k < insert_desc(s, m).len() implies (#[trigger] insert_desc(
            s,
            m,
        )[k] == m || s.contains(insert_desc(s, m)[k])) by {
            if k > 0 {
                assert(insert_desc(s, m)[k] == s[k - 1]);
            }
        }
    } else {
        lemma_insert_desc_membership(s.drop_first(), m);
        let inner = insert_desc(s.drop_first(), m);
        assert forall|k: int| 0 <= k < insert_desc(s, m).len() implies (#[trigger] insert_desc(
            s,
            m,
        )[k] == m || s.contains(insert_desc(s, m)[k])) by {
            if k > 0 {
                assert(insert_desc(s, m)[k] == inner[k - 1]);
                if inner[k - 1] != m {
                    let k2 = choose|k2: int|
                        0 <= k2 < s.drop_first().len() && s.drop_first()[k2] == inner[k - 1];
                    assert(s[k2 + 1] == inner[k - 1]);
                }
            }
        }
    }
}

/// Inserting keeps a descending sequence descending.
proof fn lemma_insert_desc_sorted(s: Seq<MessageView>, m: MessageView)
    requires
        sorted_desc(s),
    ensures
        sorted_desc(insert_desc(s, m)),
    decreases s.len(),
{
    if s.len() == 0 {
    } else if ord_before(m, s[0]) {
        let r = insert_desc(s, m);
        assert forall|i: int, j: int| 0 <= i < j < r.len() implies ord_before(
            #[trigger] r[i],
            #[trigger] r[j],
        ) by {
            if i == 0 {
                assert(r[j] == s[j - 1]);
            } else {
                assert(r[i] == s[i - 1] && r[j] == s[j - 1]);
            }
        }
    } else {
        let d = s.drop_first();
        assert forall|i: int, j: int| 0 <= i < j < d.len() implies ord_before(
            #[trigger] d[i],
            #[trigger] d[j],
        ) by {
            assert(d[i] == s[i + 1] && d[j] == s[j + 1]);
        }
        lemma_insert_desc_sorted(d, m);
        lemma_insert_desc_membership(d, m);
        let inner = insert_desc(d, m);
        let r = insert_desc(s, m);
        assert forall|i: int, j: int| 0 <= i < j < r.len() implies ord_before(
            #[trigger] r[i],
            #[trigger] r[j],
        ) by {
            if i == 0 {
                assert(r[j] == inner[j - 1]);
                if inner[j - 1] == m {
                } else {
                    let k2 = choose|k2: int| 0 <= k2 < d.len() && d[k2] == inner[j - 1];
                    assert(d[k2] == s[k2 + 1]);
                }
            } else {
                assert(r[i] == inner[i - 1] && r[j] == inner[j - 1]);
            }
        }
    }
}

/// The sorted image of any row sequence is descending.
pub proof fn lemma_sort_desc_sorted(s: Seq<MessageView>)
    ensures
        sorted_desc(sort_desc(s)),
    decreases s.len(),
{
    if s.len() > 0 {
        lemma_sort_desc_sorted(s.drop_last());
        lemma_insert_desc_sorted(sort_desc(s.drop_last()), s.last());
    }
}

/// Law: in every listing, a message with a strictly greater timestamp stands
/// strictly earlier, whatever bound and limit the request carried.
pub proof fn lemma_page_ordering(
    rows: Seq<MessageView>,
    bound: Option<int>,
    limit: nat,
    i: int,
    j: int,
)
    requires
        0 <= i < page_spec(rows, bound, limit).len(),
        0 <= j < page_spec(rows, bound, limit).len(),
        page_spec(rows, bound, limit)[i].timestamp > page_spec(rows, bound, limit)[j].timestamp,
    ensures
        i < j,
{
    lemma_sort_desc_sorted(filter_rows(rows, bound));
    let p = page_spec(rows, bound, limit);
    let s = sort_desc(filter_rows(rows, bound));
    assert(p[i] == s[i] && p[j] == s[j]);
    if j < i {
        assert(ord_before(s[j], s[i]));
    }
}

/// Appending one row extends the filtered image by that row exactly when it
/// falls below the bound.
proof fn lemma_filter_rows_push(rows: Seq<MessageView>, m: MessageView, bound: Option<int>)
    ensures
        before_bound(m, bound) ==> filter_rows(rows.push(m), bound) == filter_rows(
            rows,
            bound,
        ).push(m),
        !before_bound(m, bound) ==> filter_rows(rows.push(m), bound) == filter_rows(rows, bound),
{
    let pred = |mm: MessageView| before_bound(mm, bound);
    assert(rows.push(m).drop_last() =~= rows);
    assert(rows.push(m).last() == m);
    reveal_with_fuel(Seq::filter, 2);
    if pred(m) {
        assert(rows.push(m).filter(pred) =~= rows.filter(pred).push(m));
    } else {
        assert(rows.push(m).filter(pred) =~= rows.filter(pred));
    }
}

proof fn lemma_filter_rows_empty(bound: Option<int>)
    ensures
        filter_rows(Seq::<MessageView>::empty(), bound) == Seq::<MessageView>::empty(),
{
    reveal_with_fuel(Seq::filter, 1);
}

fn ord_before_exec(a: &Message, b: &Message) -> (r: bool)
    ensures
        r == ord_before(a@, b@),
{
    a.timestamp.micros > b.timestamp.micros || (a.timestamp.micros == b.timestamp.micros && a.id
        >= b.id)
}

fn before_bound_exec(m: &Message, bound: &Option<Timestamp>) -> (r: bool)
    ensures
        r == before_bound(m@, opt_micros(*bound)),
{
    match bound {
        None => true,
        Some(t) => m.timestamp.micros < t.micros,
    }
}

/// Inserts `m` at its place in a descending vector.
fn insert_sorted(v: &mut Vec<Message>, m: Message)
    ensures
        views_of(final(v)@) == insert_desc(views_of(old(v)@), m@),
{
    let n = v.len();
    let mut j: usize = 0;
    while j < n && !ord_before_exec(&m, &v[j])
        invariant
            0 <= j <= n,
            n == v@.len(),
            v@ == old(v)@,
            forall|k: int| 0 <= k < j ==> !ord_before(m@, views_of(v@)[k]),
        decreases n - j,
    {
        j = j + 1;
    }
    proof {
        lemma_insert_desc_at(views_of(v@), m@, j as int);
    }
    v.insert(j, m);
    proof {
        assert(views_of(v@) =~= views_of(old(v)@).take(j as int) + seq![m@] + views_of(
            old(v)@,
        ).skip(j as int));
    }
}

/// Where the first fitting index is known, the recursive insertion lands
/// exactly there.
proof fn lemma_insert_desc_at(s: Seq<MessageView>, m: MessageView, j: int)
    requires
        0 <= j <= s.len(),
        forall|k: int| 0 <= k < j ==> !ord_before(m, #[trigger] s[k]),
        j < s.len() ==> ord_before(m, s[j]),
    ensures
        insert_desc(s, m) == s.take(j) + seq![m] + s.skip(j),
    decreases j,
{
    if j == 0 {
        assert(insert_desc(s, m) =~= s.take(0) + seq![m] + s.skip(0));
    } else {
        let d = s.drop_first();
        assert(forall|k: int| 0 <= k < j - 1 ==> !ord_before(m, #[trigger] d[k]));
        assert(j - 1 < d.len() ==> ord_before(m, d[j - 1]));
        lemma_insert_desc_at(d, m, j - 1);
        assert(!ord_before(m, s[0]));
        assert(insert_desc(s, m) == seq![s[0]] + insert_desc(d, m));
        assert(insert_desc(s, m) =~= s.take(j) + seq![m] + s.skip(j));
    }
}

/// Relies on chrono's `Utc::now`: the current instant, in microseconds since
/// the Unix epoch. Nothing is assumed of the value: the clock may move
/// arbitrarily between calls.
#[verifier::external_body]
fn now_micros() -> i64 {
    chrono::Utc::now().timestamp_micros()
}

/// Scanning past `i` unmatched rows leaves the lookup result unchanged; in
/// particular, a match at `i` is the first match, and a full unmatched scan
/// means absence.
proof fn lemma_lookup_skip(rows: Seq<MessageView>, id: int, i: int)
    requires
        0 <= i <= rows.len(),
        forall|k: int| 0 <= k < i ==> #[trigger] rows[k].id != id,
    ensures
        i < rows.len() && rows[i].id == id ==> lookup(rows, id) == Some(rows[i]),
        i == rows.len() ==> lookup(rows, id) is None,
    decreases i,
{
    if i == 0 {
    } else {
        assert(rows.len() > 0);
        assert(rows[0].id != id);
        lemma_lookup_skip_one(rows, id);
        lemma_lookup_skip(rows.drop_first(), id, i - 1);
        assert(forall|k: int|
            0 <= k < i - 1 ==> #[trigger] rows.drop_first()[k].id == rows[k + 1].id);
        if i < rows.len() && rows[i].id == id {
            assert(rows.drop_first()[i - 1] == rows[i]);
        }
    }
}

proof fn lemma_lookup_skip_one(rows: Seq<MessageView>, id: int)
    requires
        rows.len() > 0,
        rows[0].id != id,
    ensures
        lookup(rows, id) == lookup(rows.drop_first(), id),
{
}

/// Law: identifiers are issued in strictly increasing order across any two
/// consecutive creations, whatever their contents and instants.
pub proof fn lemma_monotonic_ids(
    s0: StoreView,
    s1: StoreView,
    s2: StoreView,
    m1: MessageView,
    m2: MessageView,
)
    requires
        create_step(s0, s1, m1),
        create_step(s1, s2, m2),
    ensures
        m1.id < m2.id,
{
}

/// Law: after a creation, the new message is found under its identifier, and
/// identifiers that were never issued find nothing.
pub proof fn lemma_point_lookup(pre: StoreView, post: StoreView, m: MessageView)
    requires
        wf_store(pre),
        create_step(pre, post, m),
    ensures
        lookup(post.rows, m.id) == Some(m),
        forall|id: int| id >= post.next_id ==> lookup(post.rows, id) is None,
{
    lemma_lookup_last(pre.rows, m);
    assert forall|id: int| id >= post.next_id implies lookup(post.rows, id) is None by {
        lemma_lookup_absent(post.rows, id);
    }
}

/// Appending a row whose identifier no earlier row carries makes it the one
/// the lookup finds.
proof fn lemma_lookup_last(rows: Seq<MessageView>, m: MessageView)
    requires
        forall|i: int| 0 <= i < rows.len() ==> #[trigger] rows[i].id != m.id,
    ensures
        lookup(rows.push(m), m.id) == Some(m),
    decreases rows.len(),
{
    let p = rows.push(m);
    if rows.len() == 0 {
        assert(p[0] == m);
    } else {
        assert(p[0] == rows[0]);
        assert(p.drop_first() =~= rows.drop_first().push(m));
        assert(forall|i: int|
            0 <= i < rows.drop_first().len() ==> #[trigger] rows.drop_first()[i].id == rows[i
                + 1].id);
        lemma_lookup_last(rows.drop_first(), m);
    }
}

/// An identifier no row carries is not found.
proof fn lemma_lookup_absent(rows: Seq<MessageView>, id: int)
    requires
        forall|i: int| 0 <= i < rows.len() ==> #[trigger] rows[i].id != id,
    ensures
        lookup(rows, id) is None,
    decreases rows.len(),
{
    if rows.len() > 0 {
        assert(forall|i: int|
            0 <= i < rows.drop_first().len() ==> #[trigger] rows.drop_first()[i].id == rows[i
                + 1].id);
        lemma_lookup_absent(rows.drop_first(), id);
    }
}

} // verus!
