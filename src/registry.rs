//! The table of file-change subscriptions, shared by every poller: one
//! registration with the operating system's watcher per path, however many
//! subscribers the path has.
use vstd::prelude::*;

verus! {

/// One subscriber's interest in a path.
#[derive(Debug)]
pub struct WatchToken {
    pub id: u64,
    pub path: String,
}

/// The subscribers of one watched path.
#[derive(Debug)]
pub struct PathEntry {
    pub path: String,
    pub subscribers: Vec<u64>,
}

/// Paths that are watched, each with its subscribers.
#[derive(Debug)]
pub struct WatchRegistry {
    pub entries: Vec<PathEntry>,
    pub next_id: u64,
}

pub type Subscriptions = Map<Seq<char>, Seq<u64>>;

pub open spec fn entry_view(e: PathEntry) -> (Seq<char>, Seq<u64>) {
    (e.path@, e.subscribers@)
}

/// The table after subscriber `id` joins `path`.
pub open spec fn after_subscribe(m: Subscriptions, path: Seq<char>, id: u64) -> Subscriptions {
    if m.dom().contains(path) {
        m.insert(path, m[path].push(id))
    } else {
        m.insert(path, seq![id])
    }
}

/// The table after subscriber `id` of `path` leaves: a path left with no
/// subscriber is gone.
pub open spec fn after_release(m: Subscriptions, path: Seq<char>, id: u64) -> Subscriptions {
    if m.dom().contains(path) && m[path].contains(id) {
        let rest = m[path].remove_value(id);
        if rest.len() == 0 {
            m.remove(path)
        } else {
            m.insert(path, rest)
        }
    } else {
        m
    }
}

/// Each path has subscribers, and no subscriber is listed twice.
pub open spec fn subscriptions_wf(m: Subscriptions) -> bool {
    forall|p: Seq<char>| #[trigger] m.dom().contains(p) ==> m[p].len() > 0 && m[p].no_duplicates()
}

impl WatchRegistry {
    pub open spec fn entries_view(&self) -> Seq<(Seq<char>, Seq<u64>)> {
        self.entries@.map_values(|e: PathEntry| entry_view(e))
    }

    /// The subscribers of each watched path.
    pub open spec fn view(&self) -> Subscriptions {
        let s = self.entries_view();
        Map::new(
            |p: Seq<char>| exists|i: int| 0 <= i < s.len() && s[i].0 == p,
            |p: Seq<char>| s[choose|i: int| 0 <= i < s.len() && s[i].0 == p].1,
        )
    }

    /// The paths are distinct, each has subscribers, and every identifier
    /// handed out is below `next_id` and held by one subscription only.
    pub open spec fn wf(&self) -> bool {
        let s = self.entries_view();
        &&& forall|i: int, j: int| 0 <= i < j < s.len() ==> (#[trigger] s[i]).0 != (#[trigger] s[j]).0
        &&& forall|i: int| 0 <= i < s.len() ==> (#[trigger] s[i]).1.len() > 0
        &&& forall|i: int| 0 <= i < s.len() ==> (#[trigger] s[i]).1.no_duplicates()
        &&& forall|i: int, k: int|
            0 <= i < s.len() && 0 <= k < s[i].1.len() ==> #[trigger] s[i].1[k] < self.next_id
    }

    pub fn new() -> (r: WatchRegistry)
        ensures
            r.wf(),
            r.view() == Map::<Seq<char>, Seq<u64>>::empty(),
    {
        let r = WatchRegistry { entries: Vec::new(), next_id: 0 };
        proof {
            assert(r.view() =~= Map::<Seq<char>, Seq<u64>>::empty());
        }
        r
    }

    proof fn lemma_view_at(&self, i: int)
        requires
            self.wf(),
            0 <= i < self.entries_view().len(),
        ensures
            self.view().dom().contains(self.entries_view()[i].0),
            self.view()[self.entries_view()[i].0] == self.entries_view()[i].1,
    {
        let s = self.entries_view();
        let p = s[i].0;
        assert(self.view().dom().contains(p));
        let j = choose|j: int| 0 <= j < s.len() && s[j].0 == p;
        if j != i {
            if j < i {
                assert(s[j].0 != s[i].0);
            } else {
                assert(s[i].0 != s[j].0);
            }
        }
    }

    proof fn lemma_view_wf(&self)
        requires
            self.wf(),
        ensures
            subscriptions_wf(self.view()),
    {
        assert forall|p: Seq<char>| #[trigger] self.view().dom().contains(p) implies self.view()[p].len()
            > 0 && self.view()[p].no_duplicates() by {
            let i = choose|i: int| 0 <= i < self.entries_view().len() && self.entries_view()[i].0 == p;
            self.lemma_view_at(i);
        }
    }

    /// Where `path` stands in the table, if it is watched.
    fn find(&self, path: &String) -> (r: Option<usize>)
        requires
            self.wf(),
        ensures
            match r {
                Some(i) => i < self.entries_view().len() && self.entries_view()[i as int].0 == path@,
                None => !self.view().dom().contains(path@),
            },
    {
        let mut i: usize = 0;
        while i < self.entries.len()
            invariant
                i <= self.entries@.len(),
                forall|k: int| 0 <= k < i ==> (#[trigger] self.entries_view()[k]).0 != path@,
            decreases self.entries@.len() - i,
        {
            if self.entries[i].path == *path {
                return Some(i);
            }
            i = i + 1;
        }
        None
    }

    /// Whether `path` has no subscriber yet, so that a new subscriber must
    /// first register it with the operating system.
    pub fn needs_registration(&self, path: &String) -> (r: bool)
        requires
            self.wf(),
        ensures
            r == !self.view().dom().contains(path@),
    {
        match self.find(path) {
            Some(i) => {
                proof {
                    self.lemma_view_at(i as int);
                }
                false
            },
            None => true,
        }
    }

    /// The subscribers of `path`, in the order they joined; none where the
    /// path is not watched.
    pub fn subscribers(&self, path: &String) -> (r: Vec<u64>)
        requires
            self.wf(),
        ensures
            self.view().dom().contains(path@) ==> r@ == self.view()[path@],
            !self.view().dom().contains(path@) ==> r@.len() == 0,
    {
        match self.find(path) {
            Some(i) => {
                proof {
                    self.lemma_view_at(i as int);
                }
                let subs = &self.entries[i].subscribers;
                let mut out: Vec<u64> = Vec::new();
                let mut k: usize = 0;
                while k < subs.len()
                    invariant
                        k <= subs@.len(),
                        out@ =~= subs@.take(k as int),
                    decreases subs@.len() - k,
                {
                    out.push(subs[k]);
                    k = k + 1;
                }
                proof {
                    assert(subs@.take(subs@.len() as int) =~= subs@);
                }
                out
            },
            None => Vec::new(),
        }
    }

    /// Adds a subscriber to `path` and hands out its token, with an
    /// identifier that no other subscription holds.
    pub fn subscribe(&mut self, path: &String) -> (token: WatchToken)
        requires
            old(self).wf(),
            old(self).next_id < u64::MAX,
        ensures
            final(self).wf(),
            token.path@ == path@,
            token.id == old(self).next_id,
            final(self).next_id == old(self).next_id + 1,
            final(self).view() == after_subscribe(old(self).view(), path@, token.id),
    {
        let ghost m = self.view();
        let ghost s = self.entries_view();
        let id = self.next_id;
        match self.find(path) {
            Some(i) => {
                proof {
                    self.lemma_view_at(i as int);
                }
                let mut entry = PathEntry { path: String::new(), subscribers: Vec::new() };
                std::mem::swap(&mut entry, &mut self.entries[i]);
                entry.subscribers.push(id);
                std::mem::swap(&mut entry, &mut self.entries[i]);
                self.next_id = id + 1;
                proof {
                    let i = i as int;
                    let t = self.entries_view();
                    assert(t =~= s.update(i as int, (path@, s[i as int].1.push(id))));
                    assert forall|q: int| 0 <= q < t.len() implies (#[trigger] t[q]).1.no_duplicates() by {
                        if q == i {
                            assert forall|a: int, b: int| 0 <= a < b < t[q].1.len() implies t[q].1[a] != t[q].1[b] by {
                                if b == t[q].1.len() - 1 {
                                    assert(s[q].1[a] < id);
                                }
                            }
                        }
                    }
                    assert forall|q: int, k: int| 0 <= q < t.len() && 0 <= k < t[q].1.len() implies #[trigger] t[q].1[k] < self.next_id by {
                        if q == i && k < s[q].1.len() {
                            assert(t[q].1[k] == s[q].1[k]);
                        } else if q != i {
                            assert(t[q] == s[q]);
                        }
                    }
                    assert forall|a: int, b: int| 0 <= a < b < t.len() implies (#[trigger] t[a]).0 != (#[trigger] t[b]).0 by {
                        assert(t[a].0 == s[a].0 && t[b].0 == s[b].0);
                    }
                    self.lemma_same_keys_view(s, m, i as int);
                }
            },
            None => {
                let mut subs: Vec<u64> = Vec::new();
                subs.push(id);
                self.entries.push(PathEntry { path: path.clone(), subscribers: subs });
                self.next_id = id + 1;
                proof {
                    let t = self.entries_view();
                    assert(t =~= s.push((path@, seq![id])));
                    assert forall|q: int, k: int| 0 <= q < t.len() && 0 <= k < t[q].1.len() implies #[trigger] t[q].1[k] < self.next_id by {
                        if q < s.len() {
                            assert(t[q] == s[q]);
                        }
                    }
                    assert forall|a: int, b: int| 0 <= a < b < t.len() implies (#[trigger] t[a]).0 != (#[trigger] t[b]).0 by {
                        if b == s.len() {
                            assert(t[a] == s[a]);
                            assert(!m.dom().contains(path@));
                        }
                    }
                    assert forall|q: int| 0 <= q < t.len() implies (#[trigger] t[q]).1.len() > 0 && t[q].1.no_duplicates() by {
                        if q < s.len() {
                            assert(t[q] == s[q]);
                        }
                    }
                    let n = after_subscribe(m, path@, id);
                    assert forall|p: Seq<char>| #[trigger] self.view().dom().contains(p) <==> n.dom().contains(p) by {
                        if n.dom().contains(p) && p != path@ {
                            let q = choose|q: int| 0 <= q < s.len() && s[q].0 == p;
                            assert(t[q] == s[q]);
                        }
                        if p == path@ {
                            assert(t[s.len() as int].0 == p);
                        }
                        if self.view().dom().contains(p) && p != path@ {
                            let q = choose|q: int| 0 <= q < t.len() && t[q].0 == p;
                            assert(s[q] == t[q]);
                        }
                    }
                    assert forall|p: Seq<char>| #[trigger] self.view().dom().contains(p) implies self.view()[p] == n[p] by {
                        let q = choose|q: int| 0 <= q < t.len() && t[q].0 == p;
                        self.lemma_view_at(q);
                        if q < s.len() {
                            assert(t[q] == s[q]);
                            old(self).lemma_view_at(q);
                        }
                    }
                    assert(self.view() =~= n);
                }
            },
        }
        WatchToken { id, path: path.clone() }
    }

    /// After entry `i` of `s` changed its subscribers only, the view differs
    /// from `m` at that entry's path only.
    proof fn lemma_same_keys_view(&self, s: Seq<(Seq<char>, Seq<u64>)>, m: Subscriptions, i: int)
        requires
            self.wf(),
            0 <= i < s.len(),
            self.entries_view().len() == s.len(),
            forall|q: int| 0 <= q < s.len() && q != i ==> #[trigger] self.entries_view()[q] == s[q],
            self.entries_view()[i].0 == s[i].0,
            forall|a: int, b: int| 0 <= a < b < s.len() ==> (#[trigger] s[a]).0 != (#[trigger] s[b]).0,
            m == Map::new(
                |p: Seq<char>| exists|k: int| 0 <= k < s.len() && s[k].0 == p,
                |p: Seq<char>| s[choose|k: int| 0 <= k < s.len() && s[k].0 == p].1,
            ),
        ensures
            self.view() == m.insert(s[i].0, self.entries_view()[i].1),
    {
        let t = self.entries_view();
        let n = m.insert(s[i].0, t[i].1);
        assert forall|p: Seq<char>| #[trigger] self.view().dom().contains(p) <==> n.dom().contains(p) by {
            if n.dom().contains(p) && p != s[i].0 {
                let q = choose|q: int| 0 <= q < s.len() && s[q].0 == p;
                assert(t[q] == s[q]);
            }
            if p == s[i].0 {
                assert(t[i].0 == p);
            }
            if self.view().dom().contains(p) {
                let q = choose|q: int| 0 <= q < t.len() && t[q].0 == p;
                if q != i {
                    assert(s[q] == t[q]);
                }
            }
        }
        assert forall|p: Seq<char>| #[trigger] self.view().dom().contains(p) implies self.view()[p] == n[p] by {
            let q = choose|q: int| 0 <= q < t.len() && t[q].0 == p;
            self.lemma_view_at(q);
            if q != i {
                assert(t[q] == s[q]);
                let k = choose|k: int| 0 <= k < s.len() && s[k].0 == p;
                if k != q {
                    if k < q {
                        assert(s[k].0 != s[q].0);
                    } else {
                        assert(s[q].0 != s[k].0);
                    }
                }
            }
        }
        assert(self.view() =~= n);
    }

    /// Ends a subscription. Returns whether it was the path's last, in which
    /// case the path is no longer watched and must be unregistered from the
    /// operating system. A token that this table does not hold changes nothing.
    pub fn release(&mut self, token: WatchToken) -> (last: bool)
        requires
            old(self).wf(),
        ensures
            final(self).wf(),
            final(self).next_id == old(self).next_id,
            final(self).view() == after_release(old(self).view(), token.path@, token.id),
            last == (old(self).view().dom().contains(token.path@) && !final(self).view().dom().contains(
                token.path@,
            )),
    {
        let ghost m = self.view();
        let ghost s = self.entries_view();
        proof {
            self.lemma_view_wf();
        }
        let i = match self.find(&token.path) {
            Some(i) => i,
            None => {
                return false;
            },
        };
        proof {
            self.lemma_view_at(i as int);
        }
        let mut k: usize = 0;
        let n = self.entries[i].subscribers.len();
        while k < n
            invariant
                k <= n,
                (i as int) < s.len(),
                n == s[i as int].1.len(),
                self.entries_view() == s,
                forall|q: int| 0 <= q < k ==> s[i as int].1[q] != token.id,
            ensures
                k <= n,
                self.entries_view() == s,
                forall|q: int| 0 <= q < k ==> s[i as int].1[q] != token.id,
                k < n ==> s[i as int].1[k as int] == token.id,
            decreases n - k,
        {
            proof {
                assert(entry_view(self.entries@[i as int]) == s[i as int]);
            }
            if self.entries[i].subscribers[k] == token.id {
                break;
            }
            k = k + 1;
        }
        if k == n {
            proof {
                assert(!s[i as int].1.contains(token.id));
            }
            return false;
        }
        proof {
            assert(entry_view(self.entries@[i as int]) == s[i as int]);
        }
        let mut entry = PathEntry { path: String::new(), subscribers: Vec::new() };
        std::mem::swap(&mut entry, &mut self.entries[i]);
        let ghost subs = entry.subscribers@;
        entry.subscribers.remove(k);
        proof {
            lemma_remove_value_at(subs, token.id, k as int);
        }
        if entry.subscribers.len() == 0 {
            self.entries.remove(i);
            proof {
                let t = self.entries_view();
                assert(t =~= s.remove(i as int));
                let n2 = m.remove(token.path@);
                assert forall|a: int, b: int| 0 <= a < b < t.len() implies (#[trigger] t[a]).0 != (#[trigger] t[b]).0 by {
                    let a2 = if a < i { a } else { a + 1 };
                    let b2 = if b < i { b } else { b + 1 };
                    assert(t[a] == s[a2] && t[b] == s[b2]);
                }
                assert forall|q: int| 0 <= q < t.len() implies (#[trigger] t[q]).1.len() > 0 && t[q].1.no_duplicates() by {
                    let q2 = if q < i { q } else { q + 1 };
                    assert(t[q] == s[q2]);
                }
                assert forall|q: int, x: int| 0 <= q < t.len() && 0 <= x < t[q].1.len() implies #[trigger] t[q].1[x] < self.next_id by {
                    let q2 = if q < i { q } else { q + 1 };
                    assert(t[q] == s[q2]);
                }
                assert forall|p: Seq<char>| #[trigger] self.view().dom().contains(p) <==> n2.dom().contains(p) by {
                    if n2.dom().contains(p) {
                        let q = choose|q: int| 0 <= q < s.len() && s[q].0 == p;
                        assert(q != i);
                        let q2 = if q < i { q } else { q - 1 };
                        assert(t[q2] == s[q]);
                    }
                    if self.view().dom().contains(p) {
                        let q = choose|q: int| 0 <= q < t.len() && t[q].0 == p;
                        let q2 = if q < i { q } else { q + 1 };
                        assert(t[q] == s[q2]);
                        assert(s[q2].0 != s[i as int].0);
                    }
                }
                assert forall|p: Seq<char>| #[trigger] self.view().dom().contains(p) implies self.view()[p] == n2[p] by {
                    let q = choose|q: int| 0 <= q < t.len() && t[q].0 == p;
                    self.lemma_view_at(q);
                    let q2 = if q < i { q } else { q + 1 };
                    assert(t[q] == s[q2]);
                    old(self).lemma_view_at(q2);
                }
                assert(self.view() =~= n2);
            }
            true
        } else {
            std::mem::swap(&mut entry, &mut self.entries[i]);
            proof {
                let t = self.entries_view();
                assert(t =~= s.update(i as int, (token.path@, subs.remove_value(token.id))));
                assert forall|a: int, b: int| 0 <= a < b < t.len() implies (#[trigger] t[a]).0 != (#[trigger] t[b]).0 by {
                    assert(t[a].0 == s[a].0 && t[b].0 == s[b].0);
                }
                assert forall|q: int| 0 <= q < t.len() implies (#[trigger] t[q]).1.len() > 0 && t[q].1.no_duplicates() by {
                    if q != i {
                        assert(t[q] == s[q]);
                    } else {
                        assert forall|a: int, b: int| 0 <= a < b < t[q].1.len() implies t[q].1[a] != t[q].1[b] by {
                            let a2 = if a < k { a } else { a + 1 };
                            let b2 = if b < k { b } else { b + 1 };
                            assert(t[q].1[a] == subs[a2] && t[q].1[b] == subs[b2]);
                        }
                    }
                }
                assert forall|q: int, x: int| 0 <= q < t.len() && 0 <= x < t[q].1.len() implies #[trigger] t[q].1[x] < self.next_id by {
                    if q != i {
                        assert(t[q] == s[q]);
                    } else {
                        let x2 = if x < k { x } else { x + 1 };
                        assert(t[q].1[x] == subs[x2]);
                    }
                }
                self.lemma_same_keys_view(s, m, i as int);
                assert(self.view().dom().contains(token.path@));
            }
            false
        }
    }
}

proof fn lemma_remove_value_at(s: Seq<u64>, v: u64, k: int)
    requires
        0 <= k < s.len(),
        s[k] == v,
        forall|q: int| 0 <= q < k ==> s[q] != v,
    ensures
        s.remove_value(v) == s.remove(k),
        s.contains(v),
{
    assert(s.contains(v)) by {
        assert(s[k] == v);
    }
    s.index_of_first_ensures(v);
    let f = s.index_of_first(v).unwrap();
    if f < k {
        assert(s[f] != v);
    } else if f > k {
        assert(s[k] != v);
    }
}

/// Two subscribers of one path share one registration: only the first must
/// register the path; when one of them leaves the other stays subscribed, and
/// only when both have left is the path gone, to be unregistered.
pub proof fn shared_path_registration(m: Subscriptions, path: Seq<char>, a: u64, b: u64)
    requires
        subscriptions_wf(m),
        !m.dom().contains(path),
        a != b,
    ensures
        ({
            let m1 = after_subscribe(m, path, a);
            let m2 = after_subscribe(m1, path, b);
            let m3 = after_release(m2, path, a);
            let m4 = after_release(m3, path, b);
            &&& m1.dom().contains(path)
            &&& m2.dom() == m1.dom()
            &&& m3.dom().contains(path) && m3[path].contains(b) && !m3[path].contains(a)
            &&& !m4.dom().contains(path)
            &&& m4 == m
        }),
{
    let m1 = after_subscribe(m, path, a);
    let m2 = after_subscribe(m1, path, b);
    assert(m2[path] =~= seq![a, b]);
    let m3 = after_release(m2, path, a);
    lemma_remove_value_at(seq![a, b], a, 0);
    assert(seq![a, b].remove(0) =~= seq![b]);
    assert(m3[path] =~= seq![b]);
    assert(seq![b][0] == b);
    assert(!seq![b].contains(a)) by {
        if seq![b].contains(a) {
            let i = choose|i: int| 0 <= i < 1 && seq![b][i] == a;
        }
    }
    let m4 = after_release(m3, path, b);
    lemma_remove_value_at(seq![b], b, 0);
    assert(seq![b].remove(0) =~= Seq::<u64>::empty());
    assert(m4 =~= m);
    assert(m2.dom() =~= m1.dom());
}

} // verus!
