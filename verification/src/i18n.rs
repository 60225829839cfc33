//! Interface-language selection and message lookup with placeholder
//! substitution. Loading the translation tables from their files happens
//! outside the library; the lookup and substitution logic lives here.

use vstd::prelude::*;
use vstd::string::*;
use crate::strutil::{chars_string, replace_all, replace_chars, str_chars};

verus! {

/// The interface languages the application ships translations for.
#[derive(Debug, Clone, Copy, PartialEq, Eq, Structural, Hash)]
pub enum Language {
    En,
    ZhCN,
}

/// Each language's locale code.
pub open spec fn language_code(l: Language) -> Seq<char> {
    match l {
        Language::En => "en"@,
        Language::ZhCN => "zh-cn"@,
    }
}

/// Does `c` match the lowercase pattern character `lower`, up to ASCII
/// case?
pub open spec fn ci_matches(c: char, lower: char) -> bool {
    c == lower || (c as u32) + 32 == (lower as u32)
}

/// Does `code` begin with the lowercase pattern, up to ASCII case?
pub open spec fn ci_prefix(code: Seq<char>, pat: Seq<char>) -> bool {
    code.len() >= pat.len() && forall|j: int|
        0 <= j < pat.len() ==> ci_matches(code[j], #[trigger] pat[j])
}

/// The language selected for a locale code: Simplified Chinese for a
/// `zh-cn` prefix, English for everything else.
pub open spec fn language_of_locale(code: Seq<char>) -> Language {
    if ci_prefix(code, "zh-cn"@) {
        Language::ZhCN
    } else {
        Language::En
    }
}

impl Language {
    /// The language's locale code.
    pub fn code(&self) -> (r: &'static str)
        ensures
            r@ == language_code(*self),
    {
        match self {
            Language::En => "en",
            Language::ZhCN => "zh-cn",
        }
    }

    /// The language for a locale code, matched by prefix up to ASCII case,
    /// with English as the default.
    pub fn from(code: &str) -> (r: Language)
        ensures
            r == language_of_locale(code@),
    {
        let chars = str_chars(code);
        let pat = str_chars("zh-cn");
        let plen = pat.len();
        if chars.len() < plen {
            proof {
                assert(!ci_prefix(code@, "zh-cn"@));
            }
            return Language::En;
        }
        let mut j: usize = 0;
        while j < plen
            invariant
                chars@ == code@,
                pat@ == "zh-cn"@,
                plen == pat@.len(),
                plen <= chars@.len(),
                0 <= j <= plen,
                forall|k: int| 0 <= k < j ==> ci_matches(code@[k], #[trigger] pat@[k]),
            decreases plen - j,
        {
            let c = chars[j];
            let q = pat[j];
            let cu = c as u32;
            let qu = q as u32;
            let ok = c == q || (qu >= 32 && cu == qu - 32);
            if !ok {
                proof {
                    assert(!ci_matches(code@[j as int], pat@[j as int]));
                    assert(!ci_prefix(code@, "zh-cn"@));
                }
                return Language::En;
            }
            j = j + 1;
        }
        proof {
            assert(ci_prefix(code@, "zh-cn"@));
        }
        Language::ZhCN
    }
}

/// The first translation for `key`, if any.
pub open spec fn dict_lookup(entries: Seq<(Seq<char>, Seq<char>)>, key: Seq<char>) -> Option<
    Seq<char>,
>
    decreases entries.len(),
{
    if entries.len() == 0 {
        None
    } else if entries[0].0 == key {
        Some(entries[0].1)
    } else {
        dict_lookup(entries.drop_first(), key)
    }
}

/// The model of a translation table.
pub open spec fn dict_entries(v: Seq<(String, String)>) -> Seq<(Seq<char>, Seq<char>)> {
    v.map_values(|e: (String, String)| (e.0@, e.1@))
}

/// The placeholder a parameter name stands behind in a message.
pub open spec fn placeholder_of(name: Seq<char>) -> Seq<char> {
    seq!['{', '{'] + name + seq!['}', '}']
}

/// `text` with every parameter substituted, left to right.
pub open spec fn applied_params(text: Seq<char>, params: Seq<(&str, &str)>) -> Seq<char>
    decreases params.len(),
{
    if params.len() == 0 {
        text
    } else {
        applied_params(
            replace_all(text, placeholder_of(params[0].0@), params[0].1@),
            params.drop_first(),
        )
    }
}

/// The translation table for one language: the selected language and the
/// loaded key-to-message entries. The entries are handed in by whoever
/// loads the translation files; a fresh or re-targeted table starts empty.
#[derive(Debug)]
pub struct I18n {
    pub lang: Language,
    pub dict: Vec<(String, String)>,
}

impl I18n {
    /// An empty table for `lang`.
    pub fn with_lang(lang: Language) -> (r: I18n)
        ensures
            r.lang == lang,
            r.dict@.len() == 0,
    {
        I18n { lang, dict: Vec::new() }
    }

    /// The selected language.
    pub fn lang(&self) -> (r: Language)
        ensures
            r == self.lang,
    {
        self.lang
    }

    /// Selects another language; the entries of the old language are
    /// dropped, to be reloaded for the new one.
    pub fn set_lang(&mut self, lang: Language)
        ensures
            final(self).lang == lang,
            final(self).dict@.len() == 0,
    {
        self.lang = lang;
        self.dict = Vec::new();
    }

    /// Replaces the table's entries with freshly loaded ones.
    pub fn set_entries(&mut self, entries: Vec<(String, String)>)
        ensures
            final(self).lang == old(self).lang,
            final(self).dict@ == entries@,
    {
        self.dict = entries;
    }

    /// The message stored under `key`, or the empty string when the key is
    /// unknown.
    pub fn t(&self, key: &str) -> (r: String)
        ensures
            r@ == match dict_lookup(dict_entries(self.dict@), key@) {
                Some(text) => text,
                None => Seq::<char>::empty(),
            },
    {
        let ghost entries = dict_entries(self.dict@);
        let owned = key.to_owned();
        let n = self.dict.len();
        let mut i: usize = 0;
        while i < n
            invariant
                n == self.dict@.len(),
                owned@ == key@,
                entries == dict_entries(self.dict@),
                0 <= i <= n,
                forall|k: int| 0 <= k < i ==> (#[trigger] entries[k]).0 != key@,
            decreases n - i,
        {
            let e = &self.dict[i];
            proof {
                assert(entries[i as int].0 == self.dict@[i as int].0@);
            }
            if e.0 == owned {
                proof {
                    lemma_dict_lookup_first(entries, key@, i as int);
                }
                return e.1.clone();
            }
            i = i + 1;
        }
        proof {
            lemma_dict_lookup_none(entries, key@);
        }
        String::new()
    }

    /// The message stored under `key` with every `{{name}}` placeholder
    /// replaced by its parameter, left to right; the empty string when the
    /// key is unknown.
    pub fn t_with(&self, key: &str, params: &[(&str, &str)]) -> (r: String)
        ensures
            r@ == match dict_lookup(dict_entries(self.dict@), key@) {
                Some(text) => applied_params(text, params@),
                None => Seq::<char>::empty(),
            },
    {
        let text = self.t(key);
        let ghost lk = dict_lookup(dict_entries(self.dict@), key@);
        if text.as_str().is_empty() {
            proof {
                if lk is Some {
                    assert(lk.unwrap() =~= Seq::<char>::empty());
                    lemma_applied_params_empty(params@);
                }
            }
            return text;
        }
        let ghost text0 = text@;
        let mut cur = str_chars(text.as_str());
        let n = params.len();
        let mut i: usize = 0;
        proof {
            assert(params@.skip(0) =~= params@);
        }
        while i < n
            invariant
                n == params@.len(),
                0 <= i <= n,
                applied_params(text0, params@) == applied_params(cur@, params@.skip(i as int)),
            decreases n - i,
        {
            let pair = params[i];
            let mut pat: Vec<char> = Vec::new();
            pat.push('{');
            pat.push('{');
            let name_chars = str_chars(pair.0);
            let nn = name_chars.len();
            crate::strutil::push_range(&mut pat, &name_chars, 0, nn);
            pat.push('}');
            pat.push('}');
            proof {
                assert(name_chars@.subrange(0, name_chars@.len() as int) =~= name_chars@);
                assert(pat@ =~= placeholder_of(pair.0@));
            }
            let val = str_chars(pair.1);
            let next = replace_chars(&cur, &pat, &val);
            proof {
                assert(params@.skip(i as int)[0] == params@[i as int]);
                assert(params@.skip(i as int).drop_first() =~= params@.skip(i + 1));
                assert(applied_params(cur@, params@.skip(i as int)) == applied_params(
                    next@,
                    params@.skip(i + 1),
                ));
            }
            cur = next;
            i = i + 1;
        }
        proof {
            assert(params@.skip(n as int) =~= Seq::<(&str, &str)>::empty());
        }
        chars_string(&cur)
    }
}

/// Substituting into the empty message yields the empty message.
proof fn lemma_applied_params_empty(params: Seq<(&str, &str)>)
    ensures
        applied_params(Seq::<char>::empty(), params) == Seq::<char>::empty(),
    decreases params.len(),
{
    if params.len() > 0 {
        let pat = placeholder_of(params[0].0@);
        assert(pat.len() >= 4);
        assert(replace_all(Seq::<char>::empty(), pat, params[0].1@) == Seq::<char>::empty());
        lemma_applied_params_empty(params.drop_first());
    }
}

/// When the first entry with `key` sits at `i`, the lookup returns its
/// message.
proof fn lemma_dict_lookup_first(entries: Seq<(Seq<char>, Seq<char>)>, key: Seq<char>, i: int)
    requires
        0 <= i < entries.len(),
        entries[i].0 == key,
        forall|k: int| 0 <= k < i ==> (#[trigger] entries[k]).0 != key,
    ensures
        dict_lookup(entries, key) == Some(entries[i].1),
    decreases i,
{
    if i > 0 {
        assert forall|k: int| 0 <= k < i - 1 implies (#[trigger] entries.drop_first()[k]).0
            != key by {
            assert(entries.drop_first()[k] == entries[k + 1]);
        }
        assert(entries.drop_first()[i - 1] == entries[i]);
        lemma_dict_lookup_first(entries.drop_first(), key, i - 1);
    }
}

/// When no entry has `key`, the lookup fails.
proof fn lemma_dict_lookup_none(entries: Seq<(Seq<char>, Seq<char>)>, key: Seq<char>)
    requires
        forall|k: int| 0 <= k < entries.len() ==> (#[trigger] entries[k]).0 != key,
    ensures
        dict_lookup(entries, key) is None,
    decreases entries.len(),
{
    if entries.len() > 0 {
        assert forall|k: int| 0 <= k < entries.drop_first().len() implies (#[trigger] entries.drop_first()[k]).0
            != key by {
            assert(entries.drop_first()[k] == entries[k + 1]);
        }
        lemma_dict_lookup_none(entries.drop_first(), key);
    }
}

} // verus!
