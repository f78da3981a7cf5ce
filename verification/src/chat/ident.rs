//! Who takes part in a chat: socket addresses and user names, their order, and
//! ordered sets of them.
use vstd::prelude::*;

use crate::names::Username;
use crate::text::str_to_chars;

verus! {

/// A socket address: an IPv4 address (its four bytes as one big-endian number)
/// and a port, or an IPv6 address (its sixteen bytes as one big-endian number),
/// a port, a flow label and a scope.
#[derive(Debug, Clone, Copy, PartialEq, Eq, Structural, Hash)]
pub enum SocketAddress {
    V4 { ip: u32, port: u16 },
    V6 { ip: u128, port: u16, flowinfo: u32, scope_id: u32 },
}

/// The order of socket addresses: every IPv4 address before every IPv6 one, then
/// by address, port, flow label and scope, in that order.
pub open spec fn addr_lt(a: SocketAddress, b: SocketAddress) -> bool {
    match (a, b) {
        (SocketAddress::V4 { .. }, SocketAddress::V6 { .. }) => true,
        (SocketAddress::V6 { .. }, SocketAddress::V4 { .. }) => false,
        (SocketAddress::V4 { ip: i1, port: p1 }, SocketAddress::V4 { ip: i2, port: p2 }) => i1 < i2
            || (i1 == i2 && p1 < p2),
        (
            SocketAddress::V6 { ip: i1, port: p1, flowinfo: f1, scope_id: s1 },
            SocketAddress::V6 { ip: i2, port: p2, flowinfo: f2, scope_id: s2 },
        ) => i1 < i2 || (i1 == i2 && (p1 < p2 || (p1 == p2 && (f1 < f2 || (f1 == f2 && s1
            < s2))))),
    }
}

/// The lexicographic order of texts, character by character.
pub open spec fn text_lt(a: Seq<char>, b: Seq<char>) -> bool
    decreases a.len(),
{
    if a.len() == 0 {
        b.len() > 0
    } else if b.len() == 0 {
        false
    } else if a[0] != b[0] {
        (a[0] as int) < (b[0] as int)
    } else {
        text_lt(a.drop_first(), b.drop_first())
    }
}

/// An identifier as the contracts see it.
pub enum IdView {
    Socket(SocketAddress),
    User(Seq<char>),
}

/// The order of identifiers: every socket before every user, then by address or by name.
pub open spec fn id_lt(a: IdView, b: IdView) -> bool {
    match (a, b) {
        (IdView::Socket(_), IdView::User(_)) => true,
        (IdView::User(_), IdView::Socket(_)) => false,
        (IdView::Socket(x), IdView::Socket(y)) => addr_lt(x, y),
        (IdView::User(x), IdView::User(y)) => text_lt(x, y),
    }
}

pub proof fn lemma_text_lt_irreflexive(a: Seq<char>)
    ensures
        !text_lt(a, a),
    decreases a.len(),
{
    if a.len() > 0 {
        lemma_text_lt_irreflexive(a.drop_first());
    }
}

pub proof fn lemma_text_lt_transitive(a: Seq<char>, b: Seq<char>, c: Seq<char>)
    requires
        text_lt(a, b),
        text_lt(b, c),
    ensures
        text_lt(a, c),
    decreases a.len(),
{
    if a.len() > 0 && b.len() > 0 && c.len() > 0 && a[0] == b[0] && b[0] == c[0] {
        lemma_text_lt_transitive(a.drop_first(), b.drop_first(), c.drop_first());
    }
}

pub proof fn lemma_text_lt_total(a: Seq<char>, b: Seq<char>)
    ensures
        a == b || text_lt(a, b) || text_lt(b, a),
        !(text_lt(a, b) && text_lt(b, a)),
    decreases a.len(),
{
    if a.len() > 0 && b.len() > 0 {
        lemma_text_lt_total(a.drop_first(), b.drop_first());
        if a[0] == b[0] && a.drop_first() == b.drop_first() {
            assert(a == seq![a[0]] + a.drop_first());
            assert(b == seq![b[0]] + b.drop_first());
        }
    } else if a.len() == 0 && b.len() == 0 {
        assert(a == b);
    }
}

/// `id_lt` is a strict total order.
pub proof fn lemma_id_order(a: IdView, b: IdView, c: IdView)
    ensures
        !id_lt(a, a),
        a == b || id_lt(a, b) || id_lt(b, a),
        !(id_lt(a, b) && id_lt(b, a)),
        id_lt(a, b) && id_lt(b, c) ==> id_lt(a, c),
{
    match a {
        IdView::User(x) => {
            lemma_text_lt_irreflexive(x);
        },
        _ => {},
    }
    match (a, b) {
        (IdView::User(x), IdView::User(y)) => {
            lemma_text_lt_total(x, y);
        },
        _ => {},
    }
    if id_lt(a, b) && id_lt(b, c) {
        match (a, b, c) {
            (IdView::User(x), IdView::User(y), IdView::User(z)) => {
                lemma_text_lt_transitive(x, y, z);
            },
            _ => {},
        }
    }
}

/// A party to a conversation: a connected socket, or a user by name.
#[derive(Debug, PartialEq, Eq)]
pub enum Identifier {
    /// One connection; a user may come back from another address.
    Socket(SocketAddress),
    /// A user name; several connections may log in as the same user.
    User(Username),
}

impl View for Identifier {
    type V = IdView;

    open spec fn view(&self) -> IdView {
        match self {
            Identifier::Socket(a) => IdView::Socket(*a),
            Identifier::User(u) => IdView::User(u.text()),
        }
    }
}

impl Clone for Identifier {
    fn clone(&self) -> (r: Self)
        ensures
            r@ == self@,
    {
        match self {
            Identifier::Socket(a) => Identifier::Socket(*a),
            Identifier::User(u) => Identifier::User(u.clone()),
        }
    }
}

/// `a` comes before `b`, character by character.
fn text_less(a: &[char], b: &[char]) -> (r: bool)
    ensures
        r == text_lt(a@, b@),
{
    let mut i: usize = 0;
    assert(a@.skip(0) == a@ && b@.skip(0) == b@);
    while i < a.len() && i < b.len() && a[i] == b[i]
        invariant
            i <= a.len(),
            i <= b.len(),
            text_lt(a@, b@) == text_lt(a@.skip(i as int), b@.skip(i as int)),
        decreases a.len() - i,
    {
        assert(a@.skip(i as int).drop_first() == a@.skip(i + 1));
        assert(b@.skip(i as int).drop_first() == b@.skip(i + 1));
        i = i + 1;
    }
    if i == a.len() {
        i < b.len()
    } else if i == b.len() {
        false
    } else {
        a[i] < b[i]
    }
}

fn addr_less(a: &SocketAddress, b: &SocketAddress) -> (r: bool)
    ensures
        r == addr_lt(*a, *b),
{
    match (a, b) {
        (SocketAddress::V4 { .. }, SocketAddress::V6 { .. }) => true,
        (SocketAddress::V6 { .. }, SocketAddress::V4 { .. }) => false,
        (SocketAddress::V4 { ip: i1, port: p1 }, SocketAddress::V4 { ip: i2, port: p2 }) => *i1
            < *i2 || (*i1 == *i2 && *p1 < *p2),
        (
            SocketAddress::V6 { ip: i1, port: p1, flowinfo: f1, scope_id: s1 },
            SocketAddress::V6 { ip: i2, port: p2, flowinfo: f2, scope_id: s2 },
        ) => *i1 < *i2 || (*i1 == *i2 && (*p1 < *p2 || (*p1 == *p2 && (*f1 < *f2 || (*f1 == *f2
            && *s1 < *s2))))),
    }
}

impl Identifier {
    /// The two identifiers are the same.
    pub fn same_as(&self, other: &Identifier) -> (b: bool)
        ensures
            b == (self@ == other@),
    {
        match (self, other) {
            (Identifier::Socket(a), Identifier::Socket(b)) => *a == *b,
            (Identifier::User(a), Identifier::User(b)) => a.same(b),
            _ => false,
        }
    }

    /// This identifier comes before `other`.
    pub fn precedes(&self, other: &Identifier) -> (b: bool)
        ensures
            b == id_lt(self@, other@),
    {
        match (self, other) {
            (Identifier::Socket(_), Identifier::User(_)) => true,
            (Identifier::User(_), Identifier::Socket(_)) => false,
            (Identifier::Socket(a), Identifier::Socket(b)) => addr_less(a, b),
            (Identifier::User(a), Identifier::User(b)) => {
                let x = str_to_chars(a.as_str());
                let y = str_to_chars(b.as_str());
                text_less(x.as_slice(), y.as_slice())
            },
        }
    }
}

/// The views of a list of identifiers.
pub open spec fn ids_view(v: Seq<Identifier>) -> Seq<IdView> {
    v.map_values(|x: Identifier| x@)
}

/// Strictly increasing: in order, with nothing twice.
pub open spec fn sorted(s: Seq<IdView>) -> bool {
    forall|i: int, j: int| 0 <= i < j < s.len() ==> id_lt(#[trigger] s[i], #[trigger] s[j])
}

/// The first index from `i` on whose identifier does not come before `x`.
pub open spec fn pos_from(s: Seq<IdView>, x: IdView, i: int) -> int
    decreases s.len() - i,
{
    if i < 0 || i >= s.len() {
        s.len() as int
    } else if id_lt(s[i], x) {
        pos_from(s, x, i + 1)
    } else {
        i
    }
}

/// An ordered list with `x` added in its place, unless it is there already.
pub open spec fn with_member(s: Seq<IdView>, x: IdView) -> Seq<IdView> {
    let p = pos_from(s, x, 0);
    if p < s.len() && s[p] == x {
        s
    } else {
        s.insert(p, x)
    }
}

/// An ordered list with each of `b` added in turn.
pub open spec fn union_with(a: Seq<IdView>, b: Seq<IdView>) -> Seq<IdView>
    decreases b.len(),
{
    if b.len() == 0 {
        a
    } else {
        with_member(union_with(a, b.drop_last()), b.last())
    }
}

/// The members of `a` that are not in `b`, in order.
pub open spec fn without(a: Seq<IdView>, b: Seq<IdView>) -> Seq<IdView>
    decreases a.len(),
{
    if a.len() == 0 {
        seq![]
    } else if b.contains(a.last()) {
        without(a.drop_last(), b)
    } else {
        without(a.drop_last(), b).push(a.last())
    }
}

/// A set of identifiers, kept in order.
#[derive(Debug, PartialEq, Eq)]
pub struct IdSet {
    items: Vec<Identifier>,
}

impl View for IdSet {
    type V = Seq<IdView>;

    closed spec fn view(&self) -> Seq<IdView> {
        ids_view(self.items@)
    }
}

impl IdSet {
    #[verifier::type_invariant]
    closed spec fn inv(self) -> bool {
        sorted(ids_view(self.items@))
    }

    /// The empty set.
    pub fn new() -> (r: IdSet)
        ensures
            r@ == Seq::<IdView>::empty(),
    {
        let r = IdSet { items: Vec::new() };
        assert(ids_view(r.items@) == Seq::<IdView>::empty());
        r
    }

    /// A copy of the set.
    pub fn duplicate(&self) -> (r: IdSet)
        ensures
            r@ == self@,
    {
        proof {
            use_type_invariant(self);
        }
        let mut res: Vec<Identifier> = Vec::new();
        let mut i: usize = 0;
        while i < self.items.len()
            invariant
                i <= self.items.len(),
                res@.len() == i,
                forall|j: int| 0 <= j < i ==> (#[trigger] res@[j])@ == self.items@[j]@,
            decreases self.items.len() - i,
        {
            res.push(self.items[i].clone());
            i = i + 1;
        }
        assert(ids_view(res@) == ids_view(self.items@));
        IdSet { items: res }
    }

    /// The number of members; they are in order, each once.
    pub fn len(&self) -> (n: usize)
        ensures
            n == self@.len(),
            sorted(self@),
    {
        proof {
            use_type_invariant(self);
        }
        self.items.len()
    }

    /// The `i`th member in order.
    pub fn get(&self, i: usize) -> (r: &Identifier)
        requires
            i < self@.len(),
        ensures
            r@ == self@[i as int],
    {
        &self.items[i]
    }

    /// `x` is a member.
    pub fn contains(&self, x: &Identifier) -> (b: bool)
        ensures
            b == self@.contains(x@),
    {
        let mut i: usize = 0;
        while i < self.items.len()
            invariant
                i <= self.items.len(),
                forall|j: int| 0 <= j < i ==> ids_view(self.items@)[j] != x@,
            decreases self.items.len() - i,
        {
            if self.items[i].same_as(x) {
                assert(ids_view(self.items@)[i as int] == x@);
                return true;
            }
            i = i + 1;
        }
        false
    }

    /// Adds `x`, unless it is a member already.
    pub fn insert(&mut self, x: Identifier)
        ensures
            final(self)@ == with_member(old(self)@, x@),
            final(self)@.contains(x@),
            forall|y: IdView| old(self)@.contains(y) ==> #[trigger] final(self)@.contains(y),
            forall|y: IdView| #[trigger] final(self)@.contains(y) ==> old(self)@.contains(y) || y
                == x@,
    {
        proof {
            use_type_invariant(&*self);
        }
        let ghost old_v = self@;
        let n = self.items.len();
        let mut p: usize = 0;
        while p < n && self.items[p].precedes(&x)
            invariant
                p <= n == self.items.len(),
                old_v == ids_view(self.items@),
                pos_from(old_v, x@, 0) == pos_from(old_v, x@, p as int),
                forall|j: int| 0 <= j < p ==> id_lt(#[trigger] old_v[j], x@),
            decreases n - p,
        {
            p = p + 1;
        }
        assert(pos_from(old_v, x@, 0) == p);
        if p < n && self.items[p].same_as(&x) {
            assert(old_v[p as int] == x@);
            return;
        }
        proof {
            assert forall|j: int| p <= j < n implies id_lt(x@, #[trigger] old_v[j]) by {
                lemma_id_order(x@, old_v[p as int], old_v[j]);
                lemma_id_order(old_v[p as int], x@, x@);
            }
        }
        let mut items: Vec<Identifier> = Vec::new();
        std::mem::swap(&mut items, &mut self.items);
        items.insert(p, x);
        proof {
            let new_v = ids_view(items@);
            assert(new_v == old_v.insert(p as int, x@));
            assert forall|i: int, j: int| 0 <= i < j < new_v.len() implies id_lt(
                #[trigger] new_v[i],
                #[trigger] new_v[j],
            ) by {
                if i < p && j > p {
                    lemma_id_order(old_v[i], x@, old_v[j - 1]);
                }
            }
            assert(new_v[p as int] == x@);
            assert forall|y: IdView| old_v.contains(y) implies #[trigger] new_v.contains(y) by {
                let k = choose|k: int| 0 <= k < old_v.len() && old_v[k] == y;
                if k < p {
                    assert(new_v[k] == y);
                } else {
                    assert(new_v[k + 1] == y);
                }
            }
            assert forall|y: IdView| #[trigger] new_v.contains(y) implies old_v.contains(y) || y
                == x@ by {
                let k = choose|k: int| 0 <= k < new_v.len() && new_v[k] == y;
                if k < p {
                    assert(old_v[k] == y);
                } else if k > p {
                    assert(old_v[k - 1] == y);
                }
            }
        }
        self.items = items;
    }

    /// Adds every member of `other`.
    pub fn append(&mut self, other: &IdSet)
        ensures
            final(self)@ == union_with(old(self)@, other@),
            forall|y: IdView| #[trigger] final(self)@.contains(y) <==> (old(self)@.contains(y)
                || other@.contains(y)),
    {
        let ghost old_v = self@;
        let n = other.len();
        let mut i: usize = 0;
        assert(other@.take(0) == Seq::<IdView>::empty());
        while i < n
            invariant
                i <= n == other@.len(),
                self@ == union_with(old_v, other@.take(i as int)),
                forall|y: IdView| #[trigger] self@.contains(y) <==> (old_v.contains(y)
                    || other@.take(i as int).contains(y)),
            decreases n - i,
        {
            let x = other.get(i).clone();
            let ghost before = self@;
            self.insert(x);
            proof {
                let t = other@.take(i + 1);
                assert(t == other@.take(i as int).push(other@[i as int]));
                assert(t.drop_last() == other@.take(i as int));
                assert forall|y: IdView| #[trigger] self@.contains(y) <==> (old_v.contains(y)
                    || t.contains(y)) by {
                    if t.contains(y) {
                        let k = choose|k: int| 0 <= k < t.len() && t[k] == y;
                        if k < i {
                            assert(other@.take(i as int)[k] == y);
                            assert(other@.take(i as int).contains(y));
                        }
                    }
                    if other@.take(i as int).contains(y) {
                        let k = choose|k: int| 0 <= k < i && other@.take(i as int)[k] == y;
                        assert(t[k] == y);
                    }
                    if y == other@[i as int] {
                        assert(t[i as int] == y);
                    }
                }
            }
            i = i + 1;
        }
        assert(other@.take(n as int) == other@);
    }

    /// The members of this set that are not members of `other`, in order.
    pub fn difference(&self, other: &IdSet) -> (r: IdSet)
        ensures
            r@ == without(self@, other@),
            forall|y: IdView| #[trigger] r@.contains(y) <==> (self@.contains(y)
                && !other@.contains(y)),
    {
        proof {
            use_type_invariant(self);
        }
        let ghost v = self@;
        let n = self.items.len();
        let mut res: Vec<Identifier> = Vec::new();
        let mut i: usize = 0;
        assert(v.take(0) == Seq::<IdView>::empty());
        assert(ids_view(res@) == Seq::<IdView>::empty());
        while i < n
            invariant
                i <= n == self.items.len(),
                v == ids_view(self.items@),
                sorted(v),
                sorted(ids_view(res@)),
                ids_view(res@) == without(v.take(i as int), other@),
                forall|k: int, m: int|
                    0 <= k < res@.len() && i <= m < n ==> id_lt(
                        #[trigger] ids_view(res@)[k],
                        #[trigger] v[m],
                    ),
                forall|y: IdView| #[trigger] ids_view(res@).contains(y) <==> (v.take(i as int).contains(
                    y,
                ) && !other@.contains(y)),
            decreases n - i,
        {
            let item = &self.items[i];
            let ghost iv = v[i as int];
            let ghost t = v.take(i + 1);
            assert(t == v.take(i as int).push(iv));
            assert(t.drop_last() == v.take(i as int));
            if !other.contains(item) {
                let ghost before = ids_view(res@);
                res.push(item.clone());
                proof {
                    let after = ids_view(res@);
                    assert(after == before.push(iv));
                    assert forall|k: int, m: int| 0 <= k < res@.len() && i + 1 <= m < n implies id_lt(
                        #[trigger] after[k],
                        #[trigger] v[m],
                    ) by {
                        if k == before.len() {
                            assert(id_lt(v[i as int], v[m]));
                        }
                    }
                    assert forall|y: IdView| #[trigger] after.contains(y) <==> (t.contains(y)
                        && !other@.contains(y)) by {
                        if after.contains(y) {
                            let k = choose|k: int| 0 <= k < after.len() && after[k] == y;
                            if k < before.len() {
                                assert(before.contains(y));
                                let j = choose|j: int| 0 <= j < i && v.take(i as int)[j] == y;
                                assert(t[j] == y);
                            } else {
                                assert(t[i as int] == y);
                            }
                        }
                        if t.contains(y) && !other@.contains(y) {
                            let k = choose|k: int| 0 <= k < t.len() && t[k] == y;
                            if k < i {
                                assert(v.take(i as int)[k] == y);
                                assert(before.contains(y));
                                let j = choose|j: int| 0 <= j < before.len() && before[j] == y;
                                assert(after[j] == y);
                            } else {
                                assert(after[before.len() as int] == y);
                            }
                        }
                    }
                }
            } else {
                proof {
                    let cur = ids_view(res@);
                    assert forall|y: IdView| #[trigger] cur.contains(y) <==> (t.contains(y)
                        && !other@.contains(y)) by {
                        if cur.contains(y) {
                            let j = choose|j: int| 0 <= j < i && v.take(i as int)[j] == y;
                            assert(t[j] == y);
                        }
                        if t.contains(y) && !other@.contains(y) {
                            let k = choose|k: int| 0 <= k < t.len() && t[k] == y;
                            if k < i {
                                assert(v.take(i as int)[k] == y);
                            }
                        }
                    }
                }
            }
            i = i + 1;
        }
        assert(v.take(n as int) == v);
        IdSet { items: res }
    }

    /// The set of the given identifiers.
    pub fn from_vec(v: Vec<Identifier>) -> (r: IdSet)
        ensures
            r@ == union_with(Seq::<IdView>::empty(), ids_view(v@)),
            forall|y: IdView| #[trigger] r@.contains(y) <==> ids_view(v@).contains(y),
    {
        let mut r = IdSet::new();
        let n = v.len();
        let mut i: usize = 0;
        assert(ids_view(v@).take(0) == Seq::<IdView>::empty());
        while i < n
            invariant
                i <= n == v@.len(),
                r@ == union_with(Seq::<IdView>::empty(), ids_view(v@).take(i as int)),
                forall|y: IdView| #[trigger] r@.contains(y) <==> ids_view(v@).take(i as int).contains(
                    y,
                ),
            decreases n - i,
        {
            r.insert(v[i].clone());
            proof {
                let s = ids_view(v@);
                let t = s.take(i + 1);
                assert(t == s.take(i as int).push(s[i as int]));
                assert(t.drop_last() == s.take(i as int));
                assert forall|y: IdView| #[trigger] r@.contains(y) <==> t.contains(y) by {
                    if t.contains(y) {
                        let k = choose|k: int| 0 <= k < t.len() && t[k] == y;
                        if k < i {
                            assert(s.take(i as int)[k] == y);
                            assert(s.take(i as int).contains(y));
                        }
                    }
                    if s.take(i as int).contains(y) {
                        let k = choose|k: int| 0 <= k < i && s.take(i as int)[k] == y;
                        assert(t[k] == y);
                    }
                    if y == s[i as int] {
                        assert(t[i as int] == y);
                    }
                }
            }
            i = i + 1;
        }
        assert(ids_view(v@).take(n as int) == ids_view(v@));
        r
    }
}

} // verus!
