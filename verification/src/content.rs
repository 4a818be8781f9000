//! Content and the content store.

use vstd::prelude::*;
use vstd::utf8::*;

use crate::clock::now_millis;
use crate::geo::GeographicError;
use crate::ident::{fresh_uuid, is_uuid_string};
use crate::text::utf8_to_string;
use crate::keyed::{Keyed, keys_unique, keyed_map, lemma_map_index, lemma_map_len, lemma_map_push, lemma_map_remove, lemma_map_update};

verus! {

/// Unique identifier for content.
#[derive(Debug, Clone, PartialEq, Eq, Hash)]
pub struct ContentId(pub String);

impl ContentId {
    /// Generate a new content ID.
    pub fn new() -> (id: ContentId)
        ensures
            is_uuid_string(id.0@),
    {
        ContentId(fresh_uuid())
    }

    /// Create from string.
    pub fn from_string(s: String) -> (id: ContentId)
        ensures
            id.0@ == s@,
    {
        ContentId(s)
    }

    /// A copy of this identifier.
    pub fn copy(&self) -> (id: ContentId)
        ensures
            id.0@ == self.0@,
    {
        ContentId(self.0.clone())
    }

    /// The identifier as text.
    pub fn to_string(&self) -> (s: String)
        ensures
            s@ == self.0@,
    {
        self.0.clone()
    }
}

/// Types of content in the network.
#[derive(Debug, Clone, Copy, PartialEq, Eq, Hash, Structural)]
pub enum ContentType {
    Text,
    Image,
    Video,
    Audio,
    Location,
    Event,
    Announcement,
    Emergency,
}

/// Content in the Proxima network. `L` is the type of the location where the
/// content was created; the store never looks inside it.
#[derive(Debug, Clone)]
pub struct Content<L> {
    /// Unique identifier
    pub id: ContentId,
    /// Author of the content
    pub author: String,
    /// Type of content
    pub content_type: ContentType,
    /// Raw content data
    pub data: Vec<u8>,
    /// When the content was created, in Unix milliseconds
    pub timestamp: i64,
    /// Geographic location where content was created
    pub location: L,
    /// Tags for categorization
    pub tags: Vec<String>,
}

impl<L> Keyed for Content<L> {
    open spec fn key(&self) -> Seq<char> {
        self.id.0@
    }

    fn key_text(&self) -> (k: &str) {
        self.id.0.as_str()
    }
}

impl<L> Content<L> {
    /// Create new content with a fresh identifier, stamped with the current time.
    pub fn new(
        author: String,
        content_type: ContentType,
        data: Vec<u8>,
        location: L,
        tags: Vec<String>,
    ) -> (c: Self)
        ensures
            is_uuid_string(c.id.0@),
            c.author == author,
            c.content_type == content_type,
            c.data == data,
            c.location == location,
            c.tags == tags,
    {
        Content {
            id: ContentId::new(),
            author,
            content_type,
            data,
            timestamp: now_millis(),
            location,
            tags,
        }
    }

    /// Get content size in bytes.
    pub fn size(&self) -> (n: usize)
        ensures
            n == self.data@.len(),
    {
        self.data.len()
    }

    /// Check if content is text.
    pub fn is_text(&self) -> (b: bool)
        ensures
            b <==> self.content_type == ContentType::Text,
    {
        self.content_type == ContentType::Text
    }

    /// Get content as text: `Some` exactly for text content whose bytes are
    /// valid UTF-8, holding the decoded characters.
    pub fn as_text(&self) -> (t: Option<String>)
        ensures
            t is Some <==> (self.content_type == ContentType::Text && valid_utf8(self.data@)),
            t matches Some(s) ==> s@ == decode_utf8(self.data@),
    {
        if self.is_text() {
            utf8_to_string(self.data.clone())
        } else {
            None
        }
    }
}


/// Simple content manager: an in-memory store keyed by content identifier.
pub struct ContentManager<L> {
    content: Vec<Content<L>>,
    max_content_size: usize,
}

impl<L> View for ContentManager<L> {
    type V = Map<Seq<char>, Content<L>>;

    /// The stored content, by identifier.
    closed spec fn view(&self) -> Map<Seq<char>, Content<L>> {
        keyed_map(self.content@)
    }
}

impl<L> ContentManager<L> {
    #[verifier::type_invariant]
    spec fn well_formed(self) -> bool {
        keys_unique(self.content@)
    }

    /// The largest content size, in bytes, that the store accepts.
    pub closed spec fn spec_max_content_size(&self) -> usize {
        self.max_content_size
    }

    /// Create a new content manager.
    pub fn new(max_content_size: usize) -> (m: Self)
        ensures
            m@ == Map::<Seq<char>, Content<L>>::empty(),
            m@.dom().finite(),
            m.spec_max_content_size() == max_content_size,
    {
        let m = ContentManager { content: Vec::new(), max_content_size };
        assert(m@ =~= Map::<Seq<char>, Content<L>>::empty());
        m
    }

    /// Index of the content with the given identifier.
    fn find(&self, content_id: &ContentId) -> (r: Option<usize>)
        ensures
            match r {
                Some(i) => i < self.content@.len() && self.content@[i as int].id.0@ == content_id.0@,
                None => !self@.contains_key(content_id.0@),
            },
    {
        let mut i: usize = 0;
        while i < self.content.len()
            invariant
                i <= self.content@.len(),
                forall|j: int| 0 <= j < i ==> self.content@[j].id.0@ != content_id.0@,
            decreases self.content@.len() - i,
        {
            if self.content[i].id.0 == content_id.0 {
                return Some(i);
            }
            i = i + 1;
        }
        None
    }

    /// Publish content. Content larger than the size limit is refused first,
    /// then empty content; otherwise the content is stored under its
    /// identifier, replacing what was stored there, and the identifier is returned.
    pub fn publish(&mut self, content: Content<L>) -> (r: Result<ContentId, ContentError>)
        ensures
            final(self).spec_max_content_size() == old(self).spec_max_content_size(),
            old(self)@.dom().finite(),
            final(self)@.dom().finite(),
            match r {
                Ok(id) => {
                    &&& 0 < content.data@.len() <= old(self).spec_max_content_size()
                    &&& id.0@ == content.id.0@
                    &&& final(self)@ == old(self)@.insert(content.id.0@, content)
                },
                Err(ContentError::ContentTooLarge { size, max_size }) => {
                    &&& content.data@.len() > old(self).spec_max_content_size()
                    &&& size == content.data@.len()
                    &&& max_size == old(self).spec_max_content_size()
                    &&& final(self)@ == old(self)@
                },
                Err(ContentError::EmptyContent) => {
                    &&& content.data@.len() == 0
                    &&& final(self)@ == old(self)@
                },
                Err(_) => false,
            },
    {
        proof {
            use_type_invariant(&*self);
            lemma_map_len(self.content@);
        }
        if content.size() > self.max_content_size {
            return Err(ContentError::ContentTooLarge { size: content.size(), max_size: self.max_content_size });
        }
        if content.data.len() == 0 {
            return Err(ContentError::EmptyContent);
        }
        let content_id = content.id.copy();
        let ghost c = content;
        let ghost s = self.content@;
        let found = self.find(&content_id);
        let mut items: Vec<Content<L>> = Vec::new();
        std::mem::swap(&mut items, &mut self.content);
        match found {
            Some(i) => {
                proof {
                    lemma_map_update(s, i as int, c);
                }
                items.set(i, content);
            },
            None => {
                proof {
                    lemma_map_push(s, c);
                }
                items.push(content);
            },
        }
        self.content = items;
        Ok(content_id)
    }

    /// Get content by ID.
    pub fn get(&self, content_id: &ContentId) -> (r: Option<&Content<L>>)
        ensures
            match r {
                Some(c) => self@.contains_key(content_id.0@) && *c == self@[content_id.0@],
                None => !self@.contains_key(content_id.0@),
            },
            self@.dom().finite(),
    {
        proof {
            use_type_invariant(self);
            lemma_map_len(self.content@);
        }
        match self.find(content_id) {
            Some(i) => {
                proof {
                    lemma_map_index(self.content@, i as int);
                }
                Some(&self.content[i])
            },
            None => None,
        }
    }

    /// Get all content, each stored item once, in no particular order.
    pub fn get_all(&self) -> (r: Vec<&Content<L>>)
        ensures
            r@.len() == self@.len(),
            forall|i: int|
                0 <= i < r@.len() ==> self@.contains_key((#[trigger] r@[i]).id.0@) && *r@[i]
                    == self@[r@[i].id.0@],
            forall|i: int, j: int|
                0 <= i < r@.len() && 0 <= j < r@.len() && i != j ==> (#[trigger] r@[i]).id.0@
                    != (#[trigger] r@[j]).id.0@,
    {
        proof {
            use_type_invariant(self);
            lemma_map_len(self.content@);
        }
        let mut r: Vec<&Content<L>> = Vec::new();
        let mut i: usize = 0;
        while i < self.content.len()
            invariant
                keys_unique(self.content@),
                i <= self.content@.len(),
                r@.len() == i,
                forall|j: int| 0 <= j < i ==> *r@[j] == #[trigger] self.content@[j],
            decreases self.content@.len() - i,
        {
            r.push(&self.content[i]);
            i = i + 1;
        }
        proof {
            assert forall|j: int|
                0 <= j < r@.len() implies self@.contains_key((#[trigger] r@[j]).id.0@) && *r@[j]
                    == self@[r@[j].id.0@] by {
                lemma_map_index(self.content@, j);
            }
            assert forall|a: int, b: int|
                0 <= a < r@.len() && 0 <= b < r@.len() && a != b implies (#[trigger] r@[a]).id.0@
                    != (#[trigger] r@[b]).id.0@ by {
                assert(*r@[a] == self.content@[a]);
                assert(*r@[b] == self.content@[b]);
            }
        }
        r
    }

    /// Get content count.
    pub fn count(&self) -> (n: usize)
        ensures
            n == self@.len(),
            self@.dom().finite(),
    {
        proof {
            use_type_invariant(self);
            lemma_map_len(self.content@);
        }
        self.content.len()
    }

    /// Remove content, returning what was stored under the identifier.
    pub fn remove(&mut self, content_id: &ContentId) -> (r: Option<Content<L>>)
        ensures
            final(self).spec_max_content_size() == old(self).spec_max_content_size(),
            match r {
                Some(c) => old(self)@.contains_key(content_id.0@) && c == old(self)@[content_id.0@],
                None => !old(self)@.contains_key(content_id.0@),
            },
            final(self)@ == old(self)@.remove(content_id.0@),
            final(self)@.dom().finite(),
    {
        proof {
            use_type_invariant(&*self);
            lemma_map_len(self.content@);
        }
        match self.find(content_id) {
            Some(i) => {
                let ghost s = self.content@;
                proof {
                    lemma_map_remove(s, i as int);
                    lemma_map_index(s, i as int);
                }
                let mut items: Vec<Content<L>> = Vec::new();
                std::mem::swap(&mut items, &mut self.content);
                let c = items.remove(i);
                self.content = items;
                Some(c)
            },
            None => {
                assert(old(self)@.remove(content_id.0@) =~= old(self)@);
                None
            },
        }
    }
}

/// What a successful publish stores is what a later `get` of its id returns;
/// other ids are unaffected; and after `remove` of that id, `get` finds nothing.
pub proof fn law_publish_get_remove<L>(store: Map<Seq<char>, Content<L>>, c: Content<L>, other: Seq<char>)
    ensures
        store.insert(c.id.0@, c).contains_key(c.id.0@),
        store.insert(c.id.0@, c)[c.id.0@] == c,
        other != c.id.0@ ==> store.insert(c.id.0@, c).contains_key(other) == store.contains_key(other),
        other != c.id.0@ && store.contains_key(other) ==> store.insert(c.id.0@, c)[other] == store[other],
        !store.insert(c.id.0@, c).remove(c.id.0@).contains_key(c.id.0@),
{
}

/// Publishing content under a new id grows the count by one; publishing under
/// an id already stored leaves the count unchanged.
pub proof fn law_publish_count<L>(store: Map<Seq<char>, Content<L>>, c: Content<L>)
    requires
        store.dom().finite(),
    ensures
        store.insert(c.id.0@, c).len() == if store.contains_key(c.id.0@) {
            store.len()
        } else {
            store.len() + 1
        },
{
    if store.contains_key(c.id.0@) {
        assert(store.insert(c.id.0@, c).dom() =~= store.dom());
    } else {
        assert(store.insert(c.id.0@, c).dom() =~= store.dom().insert(c.id.0@));
    }
}

/// Content errors.
#[derive(Debug)]
pub enum ContentError {
    /// The content is larger than the store accepts.
    ContentTooLarge { size: usize, max_size: usize },
    /// The content holds no data.
    EmptyContent,
    /// A geographic operation failed.
    GeographicError(GeographicError),
}

} // verus!
