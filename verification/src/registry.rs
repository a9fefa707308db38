//! The language catalog: registered languages, their compiled queries, and
//! lookup by id or name. The catalog is an explicit object passed by
//! reference; registration assigns ids monotonically.

use vstd::prelude::*;
use crate::text::str_eq;
use vstd::utf8::encode_utf8;

verus! {

/// A registered language's identity.
#[derive(Clone, Copy, Debug, PartialEq, Eq, Structural, Hash)]
pub struct LanguageId(pub i64);

/// A language referred to before (or without) resolution against the
/// catalog: by name or by mimetype.
#[derive(Clone, Debug, PartialEq, Eq)]
pub enum UnknownLanguage {
    LanguageName(String),
    LanguageMimetype(String),
}

/// The mathematical content of an `UnknownLanguage`: which kind of
/// reference it is, and the UTF-8 bytes of the text.
pub ghost struct UnknownLanguageV {
    pub mimetype: bool,
    pub name: Seq<u8>,
}

impl View for UnknownLanguage {
    type V = UnknownLanguageV;

    open spec fn view(&self) -> UnknownLanguageV {
        match self {
            UnknownLanguage::LanguageName(s) => UnknownLanguageV {
                mimetype: false,
                name: encode_utf8(s@),
            },
            UnknownLanguage::LanguageMimetype(s) => UnknownLanguageV {
                mimetype: true,
                name: encode_utf8(s@),
            },
        }
    }
}

/// A catalog lookup failure: the id or name is not registered.
#[derive(Clone, Copy, Debug, PartialEq, Eq, Structural)]
pub enum LanguageError {
    InvalidLanguageId,
}

/// A registered language's compiled queries, each optional and set once
/// after registration.
pub struct LanguageParserInfo {
    pub highlights_query: Option<crate::query::HighlightQuery>,
    pub folds_query: Option<crate::ranges::RangesQuery>,
    pub indents_query: Option<crate::ranges::RangesQuery>,
    pub injections_query: Option<crate::injections::InjectionQuery>,
}

impl LanguageParserInfo {
    /// No queries registered yet.
    pub fn empty() -> (r: LanguageParserInfo)
        ensures
            r.highlights_query is None,
            r.folds_query is None,
            r.indents_query is None,
            r.injections_query is None,
    {
        LanguageParserInfo {
            highlights_query: None,
            folds_query: None,
            indents_query: None,
            injections_query: None,
        }
    }
}

/// One registered language: its id, its name, and its queries.
pub struct Language {
    pub id: LanguageId,
    pub name: String,
    pub parser_info: LanguageParserInfo,
}

impl Language {
    pub fn id(&self) -> (r: LanguageId)
        ensures
            r == self.id,
    {
        self.id
    }

    pub fn name(&self) -> (r: &String)
        ensures
            r@ == self.name@,
    {
        &self.name
    }
}

/// The first position of the language with the given id.
pub open spec fn spec_index_by_id(s: Seq<Language>, id: LanguageId) -> Option<int>
    decreases s.len(),
{
    if s.len() == 0 {
        None
    } else if s[0].id == id {
        Some(0)
    } else {
        match spec_index_by_id(s.skip(1), id) {
            None => None,
            Some(i) => Some(i + 1),
        }
    }
}

/// The first position of the language with the given name.
pub open spec fn spec_index_by_name(s: Seq<Language>, name: Seq<char>) -> Option<int>
    decreases s.len(),
{
    if s.len() == 0 {
        None
    } else if s[0].name@ == name {
        Some(0)
    } else {
        match spec_index_by_name(s.skip(1), name) {
            None => None,
            Some(i) => Some(i + 1),
        }
    }
}

proof fn lemma_index_by_id_at(s: Seq<Language>, id: LanguageId, i: int)
    requires
        0 <= i < s.len(),
        s[i].id == id,
        forall|j: int| 0 <= j < i ==> (#[trigger] s[j]).id != id,
    ensures
        spec_index_by_id(s, id) == Some(i),
    decreases i,
{
    if i > 0 {
        assert(forall|j: int| 0 <= j < i - 1 ==> #[trigger] s.skip(1)[j] == s[j + 1]);
        assert(s.skip(1)[i - 1] == s[i]);
        lemma_index_by_id_at(s.skip(1), id, i - 1);
    }
}

proof fn lemma_index_by_id_absent(s: Seq<Language>, id: LanguageId)
    requires
        forall|j: int| 0 <= j < s.len() ==> (#[trigger] s[j]).id != id,
    ensures
        spec_index_by_id(s, id) is None,
    decreases s.len(),
{
    if s.len() > 0 {
        assert(forall|j: int| 0 <= j < s.len() - 1 ==> #[trigger] s.skip(1)[j] == s[j + 1]);
        lemma_index_by_id_absent(s.skip(1), id);
    }
}

proof fn lemma_index_by_name_at(s: Seq<Language>, name: Seq<char>, i: int)
    requires
        0 <= i < s.len(),
        s[i].name@ == name,
        forall|j: int| 0 <= j < i ==> (#[trigger] s[j]).name@ != name,
    ensures
        spec_index_by_name(s, name) == Some(i),
    decreases i,
{
    if i > 0 {
        assert(forall|j: int| 0 <= j < i - 1 ==> #[trigger] s.skip(1)[j] == s[j + 1]);
        assert(s.skip(1)[i - 1] == s[i]);
        lemma_index_by_name_at(s.skip(1), name, i - 1);
    }
}

proof fn lemma_index_by_name_absent(s: Seq<Language>, name: Seq<char>)
    requires
        forall|j: int| 0 <= j < s.len() ==> (#[trigger] s[j]).name@ != name,
    ensures
        spec_index_by_name(s, name) is None,
    decreases s.len(),
{
    if s.len() > 0 {
        assert(forall|j: int| 0 <= j < s.len() - 1 ==> #[trigger] s.skip(1)[j] == s[j + 1]);
        lemma_index_by_name_absent(s.skip(1), name);
    }
}

/// The language catalog. Ids are assigned by a monotonic counter at
/// registration; entries are never retired.
pub struct LanguageRegistry {
    pub languages: Vec<Language>,
    pub next_id: i64,
}

impl LanguageRegistry {
    pub fn new() -> (r: LanguageRegistry)
        ensures
            r.languages@.len() == 0,
            r.next_id == 0,
    {
        LanguageRegistry { languages: Vec::new(), next_id: 0 }
    }

    /// Register a language under a fresh id and return the id.
    pub fn register(&mut self, name: String, parser_info: LanguageParserInfo) -> (r: LanguageId)
        requires
            old(self).next_id < i64::MAX,
        ensures
            r == LanguageId(old(self).next_id),
            final(self).next_id == old(self).next_id + 1,
            final(self).languages@ == old(self).languages@.push(
                Language { id: r, name, parser_info },
            ),
    {
        let id = LanguageId(self.next_id);
        self.next_id = self.next_id + 1;
        self.languages.push(Language { id, name, parser_info });
        id
    }

    /// The language registered under `language_id`, if any (the first such,
    /// though ids are unique by construction).
    pub fn language(&self, language_id: LanguageId) -> (r: Option<&Language>)
        ensures
            match r {
                Some(l) => spec_index_by_id(self.languages@, language_id) matches Some(i)
                    && *l == self.languages@[i],
                None => spec_index_by_id(self.languages@, language_id) is None,
            },
    {
        let n = self.languages.len();
        let mut i: usize = 0;
        while i < n
            invariant
                n == self.languages@.len(),
                i <= n,
                forall|j: int| 0 <= j < i ==> (#[trigger] self.languages@[j]).id != language_id,
            decreases n - i,
        {
            if self.languages[i].id.0 == language_id.0 {
                proof {
                    lemma_index_by_id_at(self.languages@, language_id, i as int);
                }
                return Some(&self.languages[i]);
            }
            i = i + 1;
        }
        proof {
            lemma_index_by_id_absent(self.languages@, language_id);
        }
        None
    }

    /// The language registered under `language_name`, if any.
    pub fn language_by_name(&self, language_name: &str) -> (r: Option<&Language>)
        ensures
            match r {
                Some(l) => spec_index_by_name(self.languages@, language_name@) matches Some(i)
                    && *l == self.languages@[i],
                None => spec_index_by_name(self.languages@, language_name@) is None,
            },
    {
        let n = self.languages.len();
        let mut i: usize = 0;
        while i < n
            invariant
                n == self.languages@.len(),
                i <= n,
                forall|j: int|
                    0 <= j < i ==> (#[trigger] self.languages@[j]).name@ != language_name@,
            decreases n - i,
        {
            if str_eq(self.languages[i].name.as_str(), language_name) {
                proof {
                    lemma_index_by_name_at(self.languages@, language_name@, i as int);
                }
                return Some(&self.languages[i]);
            }
            i = i + 1;
        }
        proof {
            lemma_index_by_name_absent(self.languages@, language_name@);
        }
        None
    }

    /// Resolve a by-name or by-mimetype reference: only names resolve, as
    /// the catalog is keyed by name.
    pub fn language_by_unknown(&self, language: &UnknownLanguage) -> (r: Option<&Language>)
        ensures
            match r {
                Some(l) => language matches UnknownLanguage::LanguageName(s) && spec_index_by_name(
                    self.languages@,
                    s@,
                ) matches Some(i) && *l == self.languages@[i],
                None => match language {
                    UnknownLanguage::LanguageName(s) => spec_index_by_name(self.languages@, s@) is None,
                    UnknownLanguage::LanguageMimetype(_) => true,
                },
            },
    {
        match language {
            UnknownLanguage::LanguageName(name) => self.language_by_name(name.as_str()),
            UnknownLanguage::LanguageMimetype(_) => None,
        }
    }
}

} // verus!
