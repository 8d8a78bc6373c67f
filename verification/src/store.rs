//! The per-document repository: each open document's text, keyed by its
//! URI, with the outline recomputed from the current text on request.

use vstd::prelude::*;

use crate::outline::DocumentSymbol;
use crate::outline::collect_symbols;
use crate::outline::heading_events_of;
use crate::outline::headings_of;
use crate::outline::outline_spec;
use crate::outline::sym_views;

verus! {

/// One open document: its identity and its current full text.
pub struct Document {
    pub uri: String,
    pub content: String,
}

impl Document {
    /// A document with the given identity and text.
    pub fn new(uri: String, content: String) -> (d: Document)
        ensures
            d.uri == uri,
            d.content == content,
    {
        Document { uri, content }
    }

    /// Replaces the document text wholesale.
    pub fn update_content(&mut self, content: String)
        ensures
            final(self).uri == old(self).uri,
            final(self).content == content,
    {
        self.content = content;
    }

    /// The nested outline of the document's current text.
    pub fn get_symbols(&self) -> (r: Vec<DocumentSymbol>)
        ensures
            sym_views(r@) == outline_spec(
                self.content@,
                headings_of(heading_events_of(self.content@), None),
            ),
    {
        collect_symbols(self.content.as_str())
    }
}

/// The (URI, text) pairs a store holds, in storage order.
pub open spec fn entry_views(docs: Seq<Document>) -> Seq<(Seq<char>, Seq<char>)> {
    docs.map_values(|d: Document| (d.uri@, d.content@))
}

/// The text stored under `u`: the first entry with that URI.
pub open spec fn lookup(s: Seq<(Seq<char>, Seq<char>)>, u: Seq<char>) -> Option<Seq<char>>
    decreases s.len(),
{
    if s.len() == 0 {
        None
    } else if s[0].0 == u {
        Some(s[0].1)
    } else {
        lookup(s.drop_first(), u)
    }
}

/// A cache of the open documents, keyed by URI.
pub struct DocumentStore {
    docs: Vec<Document>,
}

impl DocumentStore {
    /// The store's (URI, text) entries.
    pub closed spec fn doc_views(self) -> Seq<(Seq<char>, Seq<char>)> {
        entry_views(self.docs@)
    }

    /// Every stored URI occurs once.
    pub closed spec fn wf(self) -> bool {
        forall|i: int, j: int|
            0 <= i < j < self.docs@.len() ==> (#[trigger] self.docs@[i]).uri@ != (
            #[trigger] self.docs@[j]).uri@
    }

    /// An empty store.
    pub fn new() -> (s: DocumentStore)
        ensures
            s.wf(),
            forall|u: Seq<char>| #[trigger] lookup(s.doc_views(), u) is None,
    {
        let s = DocumentStore { docs: Vec::new() };
        proof {
            assert(s.doc_views().len() == 0);
        }
        s
    }

    /// Inserts the document or replaces its text: afterwards `uri` maps
    /// to `text` and every other URI maps as before.
    pub fn open(&mut self, uri: String, text: String)
        requires
            old(self).wf(),
        ensures
            final(self).wf(),
            forall|u: Seq<char>|
                #[trigger] lookup(final(self).doc_views(), u) == if u == uri@ {
                    Some(text@)
                } else {
                    lookup(old(self).doc_views(), u)
                },
    {
        let ghost s0 = entry_views(self.docs@);
        let mut i: usize = 0;
        let n = self.docs.len();
        while i < n
            invariant
                i <= n,
                n == self.docs@.len(),
                s0 == entry_views(old(self).docs@),
                old(self).wf(),
                self.docs@ == old(self).docs@,
                forall|j: int| 0 <= j < i ==> (#[trigger] self.docs@[j]).uri@ != uri@,
            decreases n - i,
        {
            let hit = self.docs[i].uri.eq(&uri);
            if hit {
                let ghost pre = self.docs@;
                let old_doc = self.docs.remove(i);
                self.docs.insert(i, Document { uri, content: text });
                proof {
                    assert(self.docs@ =~= pre.update(i as int, self.docs@[i as int]));
                    assert(self.docs@[i as int].uri@ == pre[i as int].uri@);
                    assert forall|a: int, b: int|
                        0 <= a < b < self.docs@.len() implies (
                    #[trigger] self.docs@[a]).uri@ != (#[trigger] self.docs@[b]).uri@ by {
                        assert(pre[a].uri@ != pre[b].uri@);
                    }
                    assert(entry_views(self.docs@) =~= s0.update(
                        i as int,
                        (pre[i as int].uri@, self.docs@[i as int].content@),
                    ));
                    lemma_lookup_update(s0, i as int, self.docs@[i as int].content@);
                }
                return ;
            }
            i = i + 1;
        }
        let ghost pre = self.docs@;
        self.docs.push(Document { uri, content: text });
        proof {
            assert(entry_views(self.docs@) =~= s0.push(
                (self.docs@[self.docs@.len() - 1].uri@, self.docs@[self.docs@.len() - 1].content@),
            ));
            assert forall|j: int| 0 <= j < s0.len() implies (#[trigger] s0[j]).0 != self.docs@[
                self.docs@.len() - 1].uri@ by {
                assert(s0[j] == (pre[j].uri@, pre[j].content@));
            }
            lemma_lookup_push(
                s0,
                self.docs@[self.docs@.len() - 1].uri@,
                self.docs@[self.docs@.len() - 1].content@,
            );
            assert forall|a: int, b: int| 0 <= a < b < self.docs@.len() implies (
            #[trigger] self.docs@[a]).uri@ != (#[trigger] self.docs@[b]).uri@ by {
                if b < pre.len() {
                    assert(pre[a].uri@ != pre[b].uri@);
                } else {
                    assert(s0[a] == (pre[a].uri@, pre[a].content@));
                }
            }
        }
    }

    /// Replaces the document's text wholesale, inserting it if absent.
    pub fn change(&mut self, uri: String, text: String)
        requires
            old(self).wf(),
        ensures
            final(self).wf(),
            forall|u: Seq<char>|
                #[trigger] lookup(final(self).doc_views(), u) == if u == uri@ {
                    Some(text@)
                } else {
                    lookup(old(self).doc_views(), u)
                },
    {
        self.open(uri, text);
    }

    /// Evicts the document: afterwards `uri` maps to nothing and every
    /// other URI maps as before.
    pub fn close(&mut self, uri: &str)
        requires
            old(self).wf(),
        ensures
            final(self).wf(),
            forall|u: Seq<char>|
                #[trigger] lookup(final(self).doc_views(), u) == if u == uri@ {
                    None::<Seq<char>>
                } else {
                    lookup(old(self).doc_views(), u)
                },
    {
        let ghost s0 = entry_views(self.docs@);
        let uri_owned = uri.to_owned();
        let mut i: usize = 0;
        let n = self.docs.len();
        while i < n
            invariant
                i <= n,
                n == self.docs@.len(),
                uri_owned@ == uri@,
                s0 == entry_views(old(self).docs@),
                old(self).wf(),
                self.docs@ == old(self).docs@,
                forall|j: int| 0 <= j < i ==> (#[trigger] self.docs@[j]).uri@ != uri@,
            decreases n - i,
        {
            let hit = self.docs[i].uri.eq(&uri_owned);
            if hit {
                let ghost pre = self.docs@;
                let _removed = self.docs.remove(i);
                proof {
                    assert(entry_views(self.docs@) =~= s0.remove(i as int));
                    assert forall|j: int| 0 <= j < s0.len() && j != i implies (
                    #[trigger] s0[j]).0 != uri@ by {
                        assert(s0[j] == (pre[j].uri@, pre[j].content@));
                        assert(s0[i as int] == (pre[i as int].uri@, pre[i as int].content@));
                        if j < i {
                        } else {
                            assert(pre[i as int].uri@ != pre[j].uri@);
                        }
                    }
                    lemma_lookup_remove(s0, i as int, uri@);
                    assert forall|a: int, b: int| 0 <= a < b < self.docs@.len() implies (
                    #[trigger] self.docs@[a]).uri@ != (#[trigger] self.docs@[b]).uri@ by {
                        let a0 = if a < i {
                            a
                        } else {
                            a + 1
                        };
                        let b0 = if b < i {
                            b
                        } else {
                            b + 1
                        };
                        assert(self.docs@[a] == pre[a0] && self.docs@[b] == pre[b0]);
                        assert(pre[a0].uri@ != pre[b0].uri@);
                    }
                }
                return ;
            }
            i = i + 1;
        }
        proof {
            lemma_lookup_absent(s0, uri@);
        }
    }

    /// The stored text of `uri`, if the document is open.
    pub fn get_content(&self, uri: &str) -> (r: Option<String>)
        ensures
            match r {
                Some(t) => lookup(self.doc_views(), uri@) == Some(t@),
                None => lookup(self.doc_views(), uri@) is None,
            },
    {
        let ghost s0 = entry_views(self.docs@);
        let uri_owned = uri.to_owned();
        let mut i: usize = 0;
        let n = self.docs.len();
        proof {
            assert(s0.skip(0) =~= s0);
        }
        while i < n
            invariant
                i <= n,
                n == self.docs@.len(),
                uri_owned@ == uri@,
                s0 == entry_views(self.docs@),
                lookup(s0, uri@) == lookup(s0.skip(i as int), uri@),
            decreases n - i,
        {
            proof {
                assert(s0.skip(i as int)[0] == s0[i as int]);
                assert(s0[i as int] == (self.docs@[i as int].uri@, self.docs@[i as int].content@));
                assert(s0.skip(i as int).drop_first() =~= s0.skip(i as int + 1));
            }
            let hit = self.docs[i].uri.eq(&uri_owned);
            if hit {
                return Some(self.docs[i].content.clone());
            }
            i = i + 1;
        }
        proof {
            assert(s0.skip(n as int).len() == 0);
        }
        None
    }

    /// The outline of the document's current text, recomputed on every
    /// call; an unopened document yields nothing.
    pub fn outline(&self, uri: &str) -> (r: Option<Vec<DocumentSymbol>>)
        ensures
            match lookup(self.doc_views(), uri@) {
                Some(c) => r is Some && sym_views(r->0@) == outline_spec(
                    c,
                    headings_of(heading_events_of(c), None),
                ),
                None => r is None,
            },
    {
        match self.get_content(uri) {
            Some(text) => Some(collect_symbols(text.as_str())),
            None => None,
        }
    }
}

proof fn lemma_lookup_update_at(s: Seq<(Seq<char>, Seq<char>)>, i: int, c: Seq<char>, u: Seq<char>)
    requires
        0 <= i < s.len(),
        forall|a: int, b: int| 0 <= a < b < s.len() ==> (#[trigger] s[a]).0 != (#[trigger] s[b]).0,
    ensures
        lookup(s.update(i, (s[i].0, c)), u) == if u == s[i].0 {
            Some(c)
        } else {
            lookup(s, u)
        },
    decreases i,
{
    reveal_with_fuel(lookup, 2);
    let s2 = s.update(i, (s[i].0, c));
    if i == 0 {
        assert(s2[0] == (s[0].0, c));
        if u != s[0].0 {
            assert(s2.drop_first() =~= s.drop_first());
        }
    } else {
        let st = s.drop_first();
        assert forall|a: int, b: int| 0 <= a < b < st.len() implies (#[trigger] st[a]).0 != (
        #[trigger] st[b]).0 by {
            assert(st[a] == s[a + 1] && st[b] == s[b + 1]);
        }
        assert(st[i - 1] == s[i]);
        lemma_lookup_update_at(st, i - 1, c, u);
        assert(s2[0] == s[0]);
        assert(s2.drop_first() =~= st.update(i - 1, (st[i - 1].0, c)));
        if u == s[i].0 {
            assert(s[0].0 != s[i].0);
        }
    }
}

proof fn lemma_lookup_push_at(s: Seq<(Seq<char>, Seq<char>)>, u0: Seq<char>, c: Seq<char>, u: Seq<char>)
    requires
        forall|j: int| 0 <= j < s.len() ==> (#[trigger] s[j]).0 != u0,
    ensures
        lookup(s.push((u0, c)), u) == if u == u0 {
            Some(c)
        } else {
            lookup(s, u)
        },
    decreases s.len(),
{
    reveal_with_fuel(lookup, 2);
    let s2 = s.push((u0, c));
    if s.len() == 0 {
        assert(s2[0] == (u0, c));
        if u != u0 {
            assert(s2.drop_first() =~= Seq::<(Seq<char>, Seq<char>)>::empty());
        }
    } else {
        let st = s.drop_first();
        assert forall|j: int| 0 <= j < st.len() implies (#[trigger] st[j]).0 != u0 by {
            assert(st[j] == s[j + 1]);
        }
        lemma_lookup_push_at(st, u0, c, u);
        assert(s2[0] == s[0]);
        assert(s2.drop_first() =~= st.push((u0, c)));
        if u == u0 {
            assert(s[0].0 != u0);
        }
    }
}

proof fn lemma_lookup_remove_at(s: Seq<(Seq<char>, Seq<char>)>, i: int, u0: Seq<char>, u: Seq<char>)
    requires
        0 <= i < s.len(),
        s[i].0 == u0,
        forall|j: int| 0 <= j < s.len() && j != i ==> (#[trigger] s[j]).0 != u0,
    ensures
        lookup(s.remove(i), u) == if u == u0 {
            None::<Seq<char>>
        } else {
            lookup(s, u)
        },
    decreases i,
{
    reveal_with_fuel(lookup, 2);
    let s2 = s.remove(i);
    if i == 0 {
        assert(s2 =~= s.drop_first());
        if u == u0 {
            assert forall|j: int| 0 <= j < s2.len() implies (#[trigger] s2[j]).0 != u0 by {
                assert(s2[j] == s[j + 1]);
            }
            lemma_lookup_absent_from(s2, u0);
        }
    } else {
        let st = s.drop_first();
        assert(st[i - 1] == s[i]);
        assert forall|j: int| 0 <= j < st.len() && j != i - 1 implies (#[trigger] st[j]).0
            != u0 by {
            assert(st[j] == s[j + 1]);
        }
        lemma_lookup_remove_at(st, i - 1, u0, u);
        assert(s2[0] == s[0]);
        assert(s2.drop_first() =~= st.remove(i - 1));
        if u == u0 {
            assert(s[0].0 != u0);
        }
    }
}

proof fn lemma_lookup_absent_from(s: Seq<(Seq<char>, Seq<char>)>, u0: Seq<char>)
    requires
        forall|j: int| 0 <= j < s.len() ==> (#[trigger] s[j]).0 != u0,
    ensures
        lookup(s, u0) is None,
    decreases s.len(),
{
    reveal_with_fuel(lookup, 2);
    if s.len() > 0 {
        let st = s.drop_first();
        assert forall|j: int| 0 <= j < st.len() implies (#[trigger] st[j]).0 != u0 by {
            assert(st[j] == s[j + 1]);
        }
        lemma_lookup_absent_from(st, u0);
    }
}

proof fn lemma_lookup_update(s: Seq<(Seq<char>, Seq<char>)>, i: int, c: Seq<char>)
    requires
        0 <= i < s.len(),
        forall|a: int, b: int| 0 <= a < b < s.len() ==> (#[trigger] s[a]).0 != (#[trigger] s[b]).0,
    ensures
        forall|u: Seq<char>|
            #[trigger] lookup(s.update(i, (s[i].0, c)), u) == if u == s[i].0 {
                Some(c)
            } else {
                lookup(s, u)
            },
{
    assert forall|u: Seq<char>|
        #[trigger] lookup(s.update(i, (s[i].0, c)), u) == if u == s[i].0 {
            Some(c)
        } else {
            lookup(s, u)
        } by {
        lemma_lookup_update_at(s, i, c, u);
    }
}

proof fn lemma_lookup_push(s: Seq<(Seq<char>, Seq<char>)>, u0: Seq<char>, c: Seq<char>)
    requires
        forall|j: int| 0 <= j < s.len() ==> (#[trigger] s[j]).0 != u0,
    ensures
        forall|u: Seq<char>|
            #[trigger] lookup(s.push((u0, c)), u) == if u == u0 {
                Some(c)
            } else {
                lookup(s, u)
            },
{
    assert forall|u: Seq<char>|
        #[trigger] lookup(s.push((u0, c)), u) == if u == u0 {
            Some(c)
        } else {
            lookup(s, u)
        } by {
        lemma_lookup_push_at(s, u0, c, u);
    }
}

proof fn lemma_lookup_remove(s: Seq<(Seq<char>, Seq<char>)>, i: int, u0: Seq<char>)
    requires
        0 <= i < s.len(),
        s[i].0 == u0,
        forall|j: int| 0 <= j < s.len() && j != i ==> (#[trigger] s[j]).0 != u0,
    ensures
        forall|u: Seq<char>|
            #[trigger] lookup(s.remove(i), u) == if u == u0 {
                None::<Seq<char>>
            } else {
                lookup(s, u)
            },
{
    assert forall|u: Seq<char>|
        #[trigger] lookup(s.remove(i), u) == if u == u0 {
            None::<Seq<char>>
        } else {
            lookup(s, u)
        } by {
        lemma_lookup_remove_at(s, i, u0, u);
    }
}

proof fn lemma_lookup_absent(s: Seq<(Seq<char>, Seq<char>)>, u0: Seq<char>)
    requires
        forall|j: int| 0 <= j < s.len() ==> (#[trigger] s[j]).0 != u0,
    ensures
        forall|u: Seq<char>|
            #[trigger] lookup(s, u) == if u == u0 {
                None::<Seq<char>>
            } else {
                lookup(s, u)
            },
{
    lemma_lookup_absent_from(s, u0);
}

} // verus!
