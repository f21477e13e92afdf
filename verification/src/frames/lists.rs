use vstd::prelude::*;

use std::collections::HashMap;
use vstd::arithmetic::power2::pow2;

use crate::frames::MAX_ORDER;
use crate::memory::pfn::Pfn;

verus! {

pub const ORDERS: usize = 11;

/// The links a free block keeps in its own first words: its neighbours on
/// the list for its order, and that order.
#[derive(Clone, Copy)]
struct Links {
    prev: Option<Pfn>,
    next: Option<Pfn>,
    order: usize,
}

/// `pages` as an optional frame.
pub open spec fn as_pfn(p: Option<usize>) -> Option<Pfn> {
    match p {
        Some(p) => Some(Pfn(p)),
        None => None,
    }
}

/// The frame before position `i` of `list`, if there is one.
pub open spec fn prev_of(list: Seq<usize>, i: int) -> Option<Pfn> {
    if i == 0 {
        None
    } else {
        Some(Pfn(list[i - 1]))
    }
}

/// The frame after position `i` of `list`, if there is one.
pub open spec fn next_of(list: Seq<usize>, i: int) -> Option<Pfn> {
    if i + 1 >= list.len() {
        None
    } else {
        Some(Pfn(list[i + 1]))
    }
}

/// The pages held by blocks on `lists`, a block on list `o` being `2^o` pages.
pub open spec fn total_pages(lists: Seq<Seq<usize>>) -> int
    decreases lists.len(),
{
    if lists.len() == 0 {
        0
    } else {
        total_pages(lists.drop_last()) + lists.last().len() * pow2((lists.len() - 1) as nat)
    }
}

/// Replacing one list changes the total by the difference it makes.
proof fn lemma_total_update(lists: Seq<Seq<usize>>, o: int, list: Seq<usize>)
    requires
        0 <= o < lists.len(),
    ensures
        total_pages(lists.update(o, list)) == total_pages(lists) - lists[o].len() * pow2(o as nat)
            + list.len() * pow2(o as nat),
    decreases lists.len(),
{
    let updated = lists.update(o, list);
    if o == lists.len() - 1 {
        assert(updated.drop_last() =~= lists.drop_last());
    } else {
        lemma_total_update(lists.drop_last(), o, list);
        assert(updated.drop_last() =~= lists.drop_last().update(o, list));
    }
}

/// Every list holds at least as many pages as its blocks.
proof fn lemma_total_at_least(lists: Seq<Seq<usize>>, o: int)
    requires
        0 <= o < lists.len(),
    ensures
        total_pages(lists) >= lists[o].len() * pow2(o as nat),
        total_pages(lists) >= 0,
    decreases lists.len(),
{
    vstd::arithmetic::power2::lemma_pow2_pos(o as nat);
    vstd::arithmetic::power2::lemma_pow2_pos((lists.len() - 1) as nat);
    vstd::arithmetic::mul::lemma_mul_nonnegative(
        lists.last().len() as int,
        pow2((lists.len() - 1) as nat) as int,
    );
    if o < lists.len() - 1 {
        lemma_total_at_least(lists.drop_last(), o);
    } else if lists.len() > 1 {
        lemma_total_at_least(lists.drop_last(), 0);
    }
}

/// No block appears twice, on one list or on two.
pub open spec fn distinct(lists: Seq<Seq<usize>>) -> bool {
    forall|o1: int, i1: int, o2: int, i2: int|
        0 <= o1 < lists.len() && 0 <= o2 < lists.len() && 0 <= i1 < lists[o1].len() && 0 <= i2
            < lists[o2].len() && #[trigger] lists[o1][i1] == #[trigger] lists[o2][i2] ==> o1 == o2
            && i1 == i2
}

/// `p` is somewhere on `lists`.
spec fn on_lists(lists: Seq<Seq<usize>>, p: usize) -> bool {
    exists|o: int, i: int| 0 <= o < lists.len() && 0 <= i < lists[o].len() && lists[o][i] == p
}

/// The stored links are exactly those of the blocks on `lists`, each naming
/// its neighbours and its list.
spec fn links_match(links: Map<usize, Links>, lists: Seq<Seq<usize>>) -> bool {
    &&& forall|o: int, i: int|
        0 <= o < lists.len() && 0 <= i < lists[o].len() ==> {
            &&& links.contains_key(#[trigger] lists[o][i])
            &&& links[lists[o][i]].prev == prev_of(lists[o], i)
            &&& links[lists[o][i]].next == next_of(lists[o], i)
            &&& links[lists[o][i]].order == o
        }
    &&& forall|p: usize| #[trigger] links.contains_key(p) ==> on_lists(lists, p)
}

/// Pushing `pfn` at the head of list `order` keeps the links matching.
proof fn lemma_push(
    links: Map<usize, Links>,
    lists: Seq<Seq<usize>>,
    pfn: usize,
    order: int,
) -> (result: (Map<usize, Links>, Seq<Seq<usize>>))
    requires
        links_match(links, lists),
        distinct(lists),
        lists.len() == ORDERS,
        0 <= order < lists.len(),
        !on_lists(lists, pfn),
    ensures
        ({
            let list = lists[order];
            let head = if list.len() == 0 {
                None
            } else {
                Some(Pfn(list[0]))
            };
            let with_new = links.insert(pfn, Links { prev: None, next: head, order: order as usize });
            let new_links = if list.len() == 0 {
                with_new
            } else {
                with_new.insert(list[0], Links { prev: Some(Pfn(pfn)), ..links[list[0]] })
            };
            result == (new_links, lists.update(order, seq![pfn] + list))
        }),
        links_match(result.0, result.1),
        distinct(result.1),
{
    let list = lists[order];
    let head = if list.len() == 0 {
        None
    } else {
        Some(Pfn(list[0]))
    };
    let with_new = links.insert(pfn, Links { prev: None, next: head, order: order as usize });
    let new_links = if list.len() == 0 {
        with_new
    } else {
        with_new.insert(list[0], Links { prev: Some(Pfn(pfn)), ..links[list[0]] })
    };
    let new_list = seq![pfn] + list;
    let new_lists = lists.update(order, new_list);
    assert forall|o: int, i: int| 0 <= o < lists.len() && 0 <= i < lists[o].len() implies lists[o][i]
        != pfn by {
        if lists[o][i] == pfn {
            assert(on_lists(lists, pfn));
        }
    }
    assert forall|o: int, i: int|
        0 <= o < new_lists.len() && 0 <= i < new_lists[o].len() implies {
        &&& new_links.contains_key(#[trigger] new_lists[o][i])
        &&& new_links[new_lists[o][i]].prev == prev_of(new_lists[o], i)
        &&& new_links[new_lists[o][i]].next == next_of(new_lists[o], i)
        &&& new_links[new_lists[o][i]].order == o
    } by {
        if o == order {
            if i > 0 {
                assert(new_lists[o][i] == list[i - 1]);
                if i > 1 {
                    assert(list[i - 1] != list[0]);
                }
            }
        } else {
            assert(new_lists[o][i] == lists[o][i]);
            if list.len() > 0 {
                assert(lists[o][i] != list[0]);
            }
        }
    }
    assert forall|p: usize| #[trigger] new_links.contains_key(p) implies on_lists(new_lists, p) by {
        if p == pfn {
            assert(new_lists[order][0] == p);
        } else {
            assert(links.contains_key(p));
            let (o, i) = choose|o: int, i: int|
                0 <= o < lists.len() && 0 <= i < lists[o].len() && lists[o][i] == p;
            if o == order {
                assert(new_lists[o][i + 1] == p);
            } else {
                assert(new_lists[o][i] == p);
            }
        }
    }
    assert forall|o1: int, i1: int, o2: int, i2: int|
        0 <= o1 < new_lists.len() && 0 <= o2 < new_lists.len() && 0 <= i1 < new_lists[o1].len() && 0
            <= i2 < new_lists[o2].len() && #[trigger] new_lists[o1][i1] == #[trigger] new_lists[o2][i2]
            implies o1 == o2 && i1 == i2 by {
        let j1 = if o1 == order {
            i1 - 1
        } else {
            i1
        };
        let j2 = if o2 == order {
            i2 - 1
        } else {
            i2
        };
        if o1 == order && i1 == 0 {
            if !(o2 == order && i2 == 0) {
                assert(lists[o2][j2] == pfn);
            }
        } else if o2 == order && i2 == 0 {
            assert(lists[o1][j1] == pfn);
        } else {
            assert(lists[o1][j1] == new_lists[o1][i1]);
            assert(lists[o2][j2] == new_lists[o2][i2]);
        }
    }
    (new_links, new_lists)
}

/// Unlinking the block at position `i` of list `order` keeps the links matching.
proof fn lemma_unlink(
    links: Map<usize, Links>,
    lists: Seq<Seq<usize>>,
    order: int,
    i: int,
) -> (result: (Map<usize, Links>, Seq<Seq<usize>>))
    requires
        links_match(links, lists),
        distinct(lists),
        lists.len() == ORDERS,
        0 <= order < lists.len(),
        0 <= i < lists[order].len(),
    ensures
        ({
            let list = lists[order];
            let pfn = list[i];
            let prev = prev_of(list, i);
            let next = next_of(list, i);
            let l1 = match prev {
                Some(p) => links.insert(p.0, Links { next: next, ..links[p.0] }),
                None => links,
            };
            let l2 = match next {
                Some(n) => l1.insert(n.0, Links { prev: prev, ..l1[n.0] }),
                None => l1,
            };
            result == (l2.remove(pfn), lists.update(order, list.remove(i)))
        }),
        links_match(result.0, result.1),
        distinct(result.1),
{
    let list = lists[order];
    let pfn = list[i];
    let prev = prev_of(list, i);
    let next = next_of(list, i);
    let l1 = match prev {
        Some(p) => links.insert(p.0, Links { next: next, ..links[p.0] }),
        None => links,
    };
    let l2 = match next {
        Some(n) => l1.insert(n.0, Links { prev: prev, ..l1[n.0] }),
        None => l1,
    };
    let new_links = l2.remove(pfn);
    let new_list = list.remove(i);
    let new_lists = lists.update(order, new_list);
    assert forall|o: int, k: int|
        0 <= o < new_lists.len() && 0 <= k < new_lists[o].len() implies {
        &&& new_links.contains_key(#[trigger] new_lists[o][k])
        &&& new_links[new_lists[o][k]].prev == prev_of(new_lists[o], k)
        &&& new_links[new_lists[o][k]].next == next_of(new_lists[o], k)
        &&& new_links[new_lists[o][k]].order == o
    } by {
        if o == order {
            let j = if k < i {
                k
            } else {
                k + 1
            };
            assert(new_lists[o][k] == list[j]);
            assert(list[j] != pfn);
            if k + 1 < new_lists[o].len() {
                let jn = if k + 1 < i {
                    k + 1
                } else {
                    k + 2
                };
                assert(new_lists[o][k + 1] == list[jn]);
            }
            if k > 0 {
                let jp = if k - 1 < i {
                    k - 1
                } else {
                    k
                };
                assert(new_lists[o][k - 1] == list[jp]);
            }
            if i > 0 && j != i - 1 {
                assert(list[j] != list[i - 1]);
            }
            if i + 1 < list.len() && j != i + 1 {
                assert(list[j] != list[i + 1]);
            }
        } else {
            assert(new_lists[o][k] == lists[o][k]);
            assert(lists[o][k] != pfn);
            if i > 0 {
                assert(lists[o][k] != list[i - 1]);
            }
            if i + 1 < list.len() {
                assert(lists[o][k] != list[i + 1]);
            }
        }
    }
    assert forall|p: usize| #[trigger] new_links.contains_key(p) implies on_lists(new_lists, p) by {
        assert(links.contains_key(p));
        let (o, k) = choose|o: int, k: int|
            0 <= o < lists.len() && 0 <= k < lists[o].len() && lists[o][k] == p;
        if o == order {
            if k < i {
                assert(new_lists[o][k] == p);
            } else {
                assert(k != i);
                assert(new_lists[o][k - 1] == p);
            }
        } else {
            assert(new_lists[o][k] == p);
        }
    }
    assert forall|o1: int, i1: int, o2: int, i2: int|
        0 <= o1 < new_lists.len() && 0 <= o2 < new_lists.len() && 0 <= i1 < new_lists[o1].len() && 0
            <= i2 < new_lists[o2].len() && #[trigger] new_lists[o1][i1] == #[trigger] new_lists[o2][i2]
            implies o1 == o2 && i1 == i2 by {
        let j1 = if o1 == order && i1 >= i {
            i1 + 1
        } else {
            i1
        };
        let j2 = if o2 == order && i2 >= i {
            i2 + 1
        } else {
            i2
        };
        assert(lists[o1][j1] == new_lists[o1][i1]);
        assert(lists[o2][j2] == new_lists[o2][i2]);
    }
    (new_links, new_lists)
}

/// One free list per order, doubly linked through the blocks themselves.
pub struct FreeLists {
    heads: Vec<Option<Pfn>>,
    pages: usize,
    /// The first words of every listed block: where the links live.
    links: HashMap<usize, Links>,
    lists: Ghost<Seq<Seq<usize>>>,
}

impl FreeLists {
    /// The blocks on each list, head first.
    pub closed spec fn spec_lists(self) -> Seq<Seq<usize>> {
        self.lists@
    }

    pub open spec fn listed_at(self, pfn: usize, order: int) -> bool {
        0 <= order < ORDERS && self.spec_lists()[order].contains(pfn)
    }

    /// `pfn` is on no list at all.
    pub open spec fn unlisted(self, pfn: usize) -> bool {
        forall|o: int| 0 <= o < ORDERS ==> !#[trigger] self.listed_at(pfn, o)
    }

    pub closed spec fn wf(self) -> bool {
        &&& self.heads@.len() == ORDERS
        &&& self.lists@.len() == ORDERS
        &&& forall|o: int|
            0 <= o < ORDERS ==> #[trigger] self.heads@[o] == (if self.lists@[o].len() == 0 {
                None
            } else {
                Some(Pfn(self.lists@[o][0]))
            })
        &&& links_match(self.links@, self.lists@)
        &&& distinct(self.lists@)
        &&& self.pages == total_pages(self.lists@)
    }

    pub proof fn lemma_wf(self)
        requires
            self.wf(),
        ensures
            distinct(self.spec_lists()),
            self.spec_lists().len() == ORDERS,
    {
    }

    /// Every list empty.
    pub fn empty() -> (lists: FreeLists)
        ensures
            lists.wf(),
            lists.spec_lists() == Seq::new(ORDERS as nat, |o: int| Seq::<usize>::empty()),
    {
        let mut heads: Vec<Option<Pfn>> = Vec::new();
        let mut o: usize = 0;
        while o < ORDERS
            invariant
                o <= ORDERS,
                heads@.len() == o,
                forall|k: int| 0 <= k < o ==> heads@[k] is None,
            decreases ORDERS - o,
        {
            heads.push(None);
            o += 1;
        }
        let ghost lists = Seq::new(ORDERS as nat, |o: int| Seq::<usize>::empty());
        proof {
            assert(total_pages(lists) == 0) by {
                lemma_total_empty(lists);
            }
        }
        FreeLists { heads, pages: 0, links: HashMap::new(), lists: Ghost(lists) }
    }

    /// Pages held by every block on every list.
    pub fn pages(&self) -> (pages: usize)
        requires
            self.wf(),
        ensures
            pages == total_pages(self.spec_lists()),
    {
        self.pages
    }

    /// The block at the head of the list for `order`.
    pub fn head(&self, order: usize) -> (head: Option<Pfn>)
        requires
            self.wf(),
        ensures
            order < ORDERS && self.spec_lists()[order as int].len() > 0 ==> head == Some(
                Pfn(self.spec_lists()[order as int][0]),
            ),
            order >= ORDERS || self.spec_lists()[order as int].len() == 0 ==> head is None,
    {
        if order < self.heads.len() {
            self.heads[order]
        } else {
            None
        }
    }

    /// Whether `pfn` is on the list for `order`.
    pub fn holds(&self, pfn: Pfn, order: usize) -> (holds: bool)
        requires
            self.wf(),
        ensures
            holds == self.listed_at(pfn.0, order as int),
    {
        match self.links.get(&pfn.0) {
            Some(links) => {
                proof {
                    assert(on_lists(self.lists@, pfn.0));
                    let (o, i) = choose|o: int, i: int|
                        0 <= o < self.lists@.len() && 0 <= i < self.lists@[o].len() && self.lists@[o][i]
                            == pfn.0;
                    assert(self.lists@[o][i] == pfn.0);
                    if self.listed_at(pfn.0, order as int) {
                        let j = choose|j: int|
                            0 <= j < self.lists@[order as int].len() && self.lists@[order as int][j]
                                == pfn.0;
                        assert(self.lists@[order as int][j] == pfn.0);
                    }
                }
                links.order == order
            },
            None => {
                proof {
                    if self.listed_at(pfn.0, order as int) {
                        let j = choose|j: int|
                            0 <= j < self.lists@[order as int].len() && self.lists@[order as int][j]
                                == pfn.0;
                        assert(self.links@.contains_key(self.lists@[order as int][j]));
                    }
                }
                false
            },
        }
    }

    /// How many blocks are on the list for `order`, counted by walking it.
    pub fn blocks(&self, order: usize) -> (count: usize)
        requires
            self.wf(),
        ensures
            order < ORDERS ==> count == self.spec_lists()[order as int].len(),
            order >= ORDERS ==> count == 0,
    {
        let mut count: usize = 0;
        let mut current = self.head(order);
        if order >= ORDERS {
            return 0;
        }
        let ghost list = self.lists@[order as int];
        proof {
            lemma_total_at_least(self.lists@, order as int);
            vstd::arithmetic::power2::lemma_pow2_pos(order as nat);
            assert(list.len() <= list.len() * pow2(order as nat)) by (nonlinear_arith)
                requires
                    pow2(order as nat) >= 1,
            ;
        }
        while current.is_some()
            invariant
                self.wf(),
                order < ORDERS,
                list == self.lists@[order as int],
                list.len() <= usize::MAX,
                count <= list.len(),
                current == (if count < list.len() {
                    Some(Pfn(list[count as int]))
                } else {
                    None
                }),
            decreases list.len() - count,
        {
            let pfn = current.unwrap();
            assert(self.links@.contains_key(list[count as int]));
            count += 1;
            current = self.read_links(pfn).next;
        }
        count
    }

    fn read_links(&self, pfn: Pfn) -> (links: Links)
        requires
            self.links@.contains_key(pfn.0),
        ensures
            links == self.links@[pfn.0],
    {
        *self.links.get(&pfn.0).unwrap()
    }

    /// Put the block at `pfn` at the head of the list for `order`; an order
    /// past the last list is ignored.
    pub fn push(&mut self, pfn: Pfn, order: usize)
        requires
            old(self).wf(),
            old(self).unlisted(pfn.0),
            order < ORDERS ==> total_pages(old(self).spec_lists()) + pow2(order as nat)
                <= usize::MAX,
        ensures
            final(self).wf(),
            order < ORDERS ==> final(self).spec_lists() == old(self).spec_lists().update(
                order as int,
                seq![pfn.0] + old(self).spec_lists()[order as int],
            ),
            order >= ORDERS ==> final(self).spec_lists() == old(self).spec_lists(),
    {
        if order >= self.heads.len() {
            return;
        }
        let ghost old_lists = self.lists@;
        let ghost old_links = self.links@;
        proof {
            if on_lists(old_lists, pfn.0) {
                let (o, i) = choose|o: int, i: int|
                    0 <= o < old_lists.len() && 0 <= i < old_lists[o].len() && old_lists[o][i]
                        == pfn.0;
                assert(self.listed_at(pfn.0, o));
            }
        }
        let ghost result = lemma_push(old_links, old_lists, pfn.0, order as int);
        let head = self.heads[order];
        self.heads.set(order, Some(pfn));
        self.links.insert(pfn.0, Links { prev: None, next: head, order });
        // Update head's prev pointer
        if let Some(head) = head {
            assert(old_links.contains_key(old_lists[order as int][0]));
            let mut links = self.read_links(head);
            links.prev = Some(pfn);
            self.links.insert(head.0, links);
        }
        proof {
            lemma_shl_one(order);
            lemma_total_update(old_lists, order as int, result.1[order as int]);
            let len = old_lists[order as int].len() as int;
            let p = pow2(order as nat) as int;
            assert((len + 1) * p == len * p + p) by (nonlinear_arith);
            self.lists@ = result.1;
            assert(self.links@ =~= result.0);
            assert forall|o: int| 0 <= o < ORDERS implies #[trigger] self.heads@[o] == (if self.lists@[o].len() == 0 {
                None
            } else {
                Some(Pfn(self.lists@[o][0]))
            }) by {
                if o != order {
                    assert(self.lists@[o] == old_lists[o]);
                }
            }
        }
        self.pages = self.pages + (1usize << order);
    }

    /// Take the block at the head of the list for `order` off it.
    pub fn pop(&mut self, order: usize) -> (head: Option<Pfn>)
        requires
            old(self).wf(),
        ensures
            final(self).wf(),
            match head {
                Some(pfn) => {
                    &&& order < ORDERS
                    &&& old(self).spec_lists()[order as int].len() > 0
                    &&& pfn.0 == old(self).spec_lists()[order as int][0]
                    &&& final(self).spec_lists() == old(self).spec_lists().update(
                        order as int,
                        old(self).spec_lists()[order as int].drop_first(),
                    )
                },
                None => {
                    &&& order >= ORDERS || old(self).spec_lists()[order as int].len() == 0
                    &&& final(self).spec_lists() == old(self).spec_lists()
                },
            },
    {
        let pfn = match self.head(order) {
            Some(pfn) => pfn,
            None => {
                return None;
            },
        };
        proof {
            assert(self.listed_at(pfn.0, order as int)) by {
                assert(self.lists@[order as int][0] == pfn.0);
            }
        }
        self.unlink(pfn, order);
        proof {
            assert(old(self).spec_lists()[order as int].remove(0) =~= old(
                self,
            ).spec_lists()[order as int].drop_first());
        }
        Some(pfn)
    }

    /// Take the block at `pfn` off the list for `order`, wherever on it it is.
    #[verifier::spinoff_prover]
    #[verifier::rlimit(100)]
    pub fn unlink(&mut self, pfn: Pfn, order: usize)
        requires
            old(self).wf(),
            old(self).listed_at(pfn.0, order as int),
        ensures
            final(self).wf(),
            ({
                let list = old(self).spec_lists()[order as int];
                let i = list.index_of(pfn.0);
                final(self).spec_lists() == old(self).spec_lists().update(
                    order as int,
                    list.remove(i),
                )
            }),
    {
        let ghost old_lists = self.lists@;
        let ghost old_links = self.links@;
        let ghost list = old_lists[order as int];
        let ghost i = list.index_of(pfn.0);
        proof {
            list.index_of_first_ensures(pfn.0);
            assert(list[i] == pfn.0);
        }
        let ghost result = lemma_unlink(old_links, old_lists, order as int, i);
        let Links { prev, next, order: _ } = self.read_links(pfn);
        match prev {
            // Update prev's pointer to next entry
            Some(prev) => {
                assert(old_links.contains_key(list[i - 1]));
                let mut links = self.read_links(prev);
                links.next = next;
                self.links.insert(prev.0, links);
            },
            // No prev means this was the head, so the head moves on.
            None => {
                self.heads.set(order, next);
            },
        }
        // Update next's prev pointer
        if let Some(next) = next {
            assert(old_links.contains_key(list[i + 1]));
            proof {
                if i > 0 {
                    assert(old_lists[order as int][i + 1] != old_lists[order as int][i - 1]);
                }
            }
            let mut links = self.read_links(next);
            links.prev = prev;
            self.links.insert(next.0, links);
        }
        self.links.remove(&pfn.0);
        proof {
            lemma_shl_one(order);
            lemma_total_update(old_lists, order as int, result.1[order as int]);
            lemma_total_at_least(old_lists, order as int);
            vstd::arithmetic::power2::lemma_pow2_pos(order as nat);
            assert(list.len() * pow2(order as nat) >= pow2(order as nat)) by (nonlinear_arith)
                requires
                    list.len() >= 1,
                    pow2(order as nat) >= 1,
            ;
            let len = list.len() as int;
            let p = pow2(order as nat) as int;
            assert((len - 1) * p == len * p - p) by (nonlinear_arith);
            self.lists@ = result.1;
            assert(self.links@ =~= result.0);
            if i > 0 {
                assert(old_lists[order as int][0] == list[0]);
            }
        }
        self.pages = self.pages - (1usize << order);
    }
}

/// Taking the head off list `o` frees that many pages fewer.
pub proof fn lemma_total_pop(lists: Seq<Seq<usize>>, o: int)
    requires
        0 <= o < lists.len(),
        lists[o].len() > 0,
    ensures
        total_pages(lists.update(o, lists[o].drop_first())) == total_pages(lists) - pow2(o as nat),
{
    lemma_total_update(lists, o, lists[o].drop_first());
    vstd::arithmetic::mul::lemma_mul_is_distributive_sub_other_way(
        pow2(o as nat) as int,
        lists[o].len() as int,
        1,
    );
}

/// Putting `p` at the head of list `o` adds that many pages.
pub proof fn lemma_total_push(lists: Seq<Seq<usize>>, o: int, p: usize)
    requires
        0 <= o < lists.len(),
    ensures
        total_pages(lists.update(o, seq![p] + lists[o])) == total_pages(lists) + pow2(o as nat),
{
    lemma_total_update(lists, o, seq![p] + lists[o]);
    vstd::arithmetic::mul::lemma_mul_is_distributive_add_other_way(
        pow2(o as nat) as int,
        lists[o].len() as int,
        1,
    );
}

/// Removing position `i` of list `o` frees that many pages fewer.
pub proof fn lemma_total_unlink(lists: Seq<Seq<usize>>, o: int, i: int)
    requires
        0 <= o < lists.len(),
        0 <= i < lists[o].len(),
    ensures
        total_pages(lists.update(o, lists[o].remove(i))) == total_pages(lists) - pow2(o as nat),
{
    lemma_total_update(lists, o, lists[o].remove(i));
    vstd::arithmetic::mul::lemma_mul_is_distributive_sub_other_way(
        pow2(o as nat) as int,
        lists[o].len() as int,
        1,
    );
}

/// Every list empty holds no pages.
proof fn lemma_total_empty(lists: Seq<Seq<usize>>)
    requires
        forall|o: int| 0 <= o < lists.len() ==> #[trigger] lists[o].len() == 0,
    ensures
        total_pages(lists) == 0,
    decreases lists.len(),
{
    if lists.len() > 0 {
        lemma_total_empty(lists.drop_last());
    }
}

/// The frames of lists `0..k`, as a set.
pub open spec fn listed_set(lists: Seq<Seq<usize>>, k: int) -> Set<int>
    decreases k,
{
    if k <= 0 {
        Set::empty()
    } else {
        listed_set(lists, k - 1).union(lists[k - 1].map_values(|x: usize| x as int).to_set())
    }
}

/// How many blocks lists `0..k` hold between them.
pub open spec fn listed_count(lists: Seq<Seq<usize>>, k: int) -> int
    decreases k,
{
    if k <= 0 {
        0
    } else {
        listed_count(lists, k - 1) + lists[k - 1].len()
    }
}

proof fn lemma_listed_set(lists: Seq<Seq<usize>>, k: int)
    requires
        distinct(lists),
        0 <= k <= lists.len(),
    ensures
        listed_set(lists, k).finite(),
        listed_set(lists, k).len() == listed_count(lists, k),
        forall|x: int|
            #[trigger] listed_set(lists, k).contains(x) ==> exists|o: int, i: int|
                0 <= o < k && 0 <= i < lists[o].len() && lists[o][i] == x,
    decreases k,
{
    if k > 0 {
        lemma_listed_set(lists, k - 1);
        let l = lists[k - 1].map_values(|x: usize| x as int);
        assert(l.no_duplicates()) by {
            assert forall|a: int, b: int| 0 <= a < l.len() && 0 <= b < l.len() && a != b implies l[a]
                != l[b] by {
                assert(lists[k - 1][a] != lists[k - 1][b]);
            }
        }
        l.unique_seq_to_set();
        assert(listed_set(lists, k - 1).disjoint(l.to_set())) by {
            assert forall|x: int| listed_set(lists, k - 1).contains(x) implies !l.to_set().contains(
                x,
            ) by {
                let (o, i) = choose|o: int, i: int|
                    0 <= o < k - 1 && 0 <= i < lists[o].len() && lists[o][i] == x;
                if l.to_set().contains(x) {
                    let j = choose|j: int| 0 <= j < l.len() && l[j] == x;
                    assert(lists[k - 1][j] == lists[o][i]);
                }
            }
        }
        vstd::set_lib::lemma_set_disjoint_lens(listed_set(lists, k - 1), l.to_set());
        assert forall|x: int| #[trigger] listed_set(lists, k).contains(x) implies exists|o: int, i: int|
            0 <= o < k && 0 <= i < lists[o].len() && lists[o][i] == x by {
            if !listed_set(lists, k - 1).contains(x) {
                let j = choose|j: int| 0 <= j < l.len() && l[j] == x;
                assert(lists[k - 1][j] == x);
            }
        }
    }
}

proof fn lemma_total_by_count(lists: Seq<Seq<usize>>, k: int)
    requires
        0 <= k <= lists.len(),
        lists.len() <= ORDERS,
    ensures
        total_pages(lists.subrange(0, k)) <= listed_count(lists, k) * pow2(MAX_ORDER as nat),
        listed_count(lists, k) >= 0,
    decreases k,
{
    if k > 0 {
        lemma_total_by_count(lists, k - 1);
        let sub = lists.subrange(0, k);
        assert(sub.drop_last() =~= lists.subrange(0, k - 1));
        lemma_shl_one((k - 1) as usize);
        let len = lists[k - 1].len() as int;
        let p = pow2((k - 1) as nat) as int;
        let m = pow2(MAX_ORDER as nat) as int;
        assert(len * p <= len * m) by (nonlinear_arith)
            requires
                p <= m,
                len >= 0,
        ;
        assert((listed_count(lists, k - 1) + len) * m == listed_count(lists, k - 1) * m + len * m)
            by (nonlinear_arith);
    }
}

/// Blocks on distinct frames within `[base, base + count)` hold at most
/// `count` times the largest block.
pub proof fn lemma_total_bounded(lists: Seq<Seq<usize>>, base: int, count: int)
    requires
        distinct(lists),
        lists.len() == ORDERS,
        0 <= count,
        forall|o: int, i: int|
            0 <= o < lists.len() && 0 <= i < lists[o].len() ==> base <= #[trigger] lists[o][i] < base
                + count,
    ensures
        total_pages(lists) <= count * pow2(MAX_ORDER as nat),
{
    lemma_listed_set(lists, lists.len() as int);
    lemma_total_by_count(lists, lists.len() as int);
    assert(lists.subrange(0, lists.len() as int) =~= lists);
    let all = listed_set(lists, lists.len() as int);
    let range = vstd::set_lib::set_int_range(base, base + count);
    vstd::set_lib::lemma_int_range(base, base + count);
    assert(all.subset_of(range)) by {
        assert forall|x: int| all.contains(x) implies range.contains(x) by {
            let (o, i) = choose|o: int, i: int|
                0 <= o < lists.len() && 0 <= i < lists[o].len() && lists[o][i] == x;
        }
    }
    vstd::set_lib::lemma_len_subset(all, range);
    let m = pow2(MAX_ORDER as nat) as int;
    vstd::arithmetic::power2::lemma_pow2_pos(MAX_ORDER as nat);
    assert(listed_count(lists, lists.len() as int) * m <= count * m) by (nonlinear_arith)
        requires
            listed_count(lists, lists.len() as int) <= count,
            m > 0,
    ;
}

/// `1 << order` is `2^order`.
pub proof fn lemma_shl_one(order: usize)
    requires
        order < ORDERS,
    ensures
        1usize << order == pow2(order as nat),
        pow2(order as nat) <= pow2(MAX_ORDER as nat),
{
    vstd::bits::lemma_usize_pow2_no_overflow(order as nat);
    vstd::bits::lemma_usize_shl_is_mul(1, order);
    if order < MAX_ORDER {
        vstd::arithmetic::power2::lemma_pow2_strictly_increases(order as nat, MAX_ORDER as nat);
    }
}

} // verus!
