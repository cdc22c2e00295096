//! Interface languages.
use vstd::prelude::*;
use crate::text::{chars_of, chars_eq};

verus! {

/// Interface language of the application.
#[derive(Debug, Clone, Copy, PartialEq, Eq, Structural)]
pub enum Lang {
    En,
    Fr,
    It,
    De,
}

/// The two-letter code of a language.
pub open spec fn spec_code(lang: Lang) -> Seq<char> {
    match lang {
        Lang::En => seq!['e', 'n'],
        Lang::Fr => seq!['f', 'r'],
        Lang::It => seq!['i', 't'],
        Lang::De => seq!['d', 'e'],
    }
}

/// The language whose code is `s`, if any.
pub open spec fn spec_from_code(s: Seq<char>) -> Option<Lang> {
    if s == spec_code(Lang::En) {
        Some(Lang::En)
    } else if s == spec_code(Lang::Fr) {
        Some(Lang::Fr)
    } else if s == spec_code(Lang::It) {
        Some(Lang::It)
    } else if s == spec_code(Lang::De) {
        Some(Lang::De)
    } else {
        None
    }
}

/// ASCII lowercase of a character.
pub open spec fn lower(c: char) -> char {
    if 'A' <= c && c <= 'Z' { ((c as u32) + 32) as char } else { c }
}

/// The characters of a tag before its first `-` or `_`.
pub open spec fn tag_prefix(s: Seq<char>) -> Seq<char>
    decreases s.len(),
{
    if s.len() == 0 || s[0] == '-' || s[0] == '_' {
        Seq::empty()
    } else {
        seq![s[0]] + tag_prefix(s.drop_first())
    }
}

fn lower_char(c: char) -> (r: char)
    ensures
        r == lower(c),
{
    if 'A' <= c && c <= 'Z' {
        let r = (((c as u32) + 32) as u8) as char;
        r
    } else {
        c
    }
}

impl Default for Lang {
    fn default() -> (r: Lang)
        ensures
            r == Lang::En,
    {
        Lang::En
    }
}

impl Lang {
    pub fn code(self) -> (res: &'static str)
        ensures
            res@ == spec_code(self),
    {
        match self {
            Lang::En => {
                proof { reveal_strlit("en"); }
                "en"
            },
            Lang::Fr => {
                proof { reveal_strlit("fr"); }
                "fr"
            },
            Lang::It => {
                proof { reveal_strlit("it"); }
                "it"
            },
            Lang::De => {
                proof { reveal_strlit("de"); }
                "de"
            },
        }
    }

    /// The language with the two-letter code `code`.
    pub fn from_code(code: &str) -> (res: Option<Lang>)
        ensures
            res == spec_from_code(code@),
    {
        let v = chars_of(code);
        Self::from_code_chars(v.as_slice())
    }

    fn from_code_chars(v: &[char]) -> (res: Option<Lang>)
        ensures
            res == spec_from_code(v@),
    {
        let all = [Lang::En, Lang::Fr, Lang::It, Lang::De];
        let mut k: usize = 0;
        while k < 4
            invariant
                k <= 4,
                all@ == seq![Lang::En, Lang::Fr, Lang::It, Lang::De],
                forall|q: int| 0 <= q < k ==> v@ != spec_code(#[trigger] all@[q]),
            decreases 4 - k,
        {
            let lang = all[k];
            let c = chars_of(lang.code());
            if chars_eq(v, c.as_slice()) {
                return Some(lang);
            }
            k = k + 1;
        }
        assert(v@ != spec_code(all@[0]) && v@ != spec_code(all@[1]) && v@ != spec_code(all@[2]) && v@ != spec_code(all@[3]));
        None
    }

    /// Best-effort match from a browser-style tag like `fr-CA` or `en-US`: the part before
    /// the first `-` or `_`, lowercased, read as a language code. (Only ASCII letters
    /// lowercase to the letters of a code.)
    pub fn from_browser_tag(tag: &str) -> (res: Option<Lang>)
        ensures
            res == spec_from_code(tag_prefix(tag@).map_values(|c: char| lower(c))),
    {
        let v = chars_of(tag);
        let mut prefix: Vec<char> = Vec::new();
        let mut i: usize = 0;
        assert(v@.skip(0) =~= v@);
        assert(prefix@ + tag_prefix(v@) =~= tag_prefix(v@));
        while i < v.len() && v[i] != '-' && v[i] != '_'
            invariant
                i <= v.len(),
                v@ == tag@,
                tag_prefix(v@) == prefix@ + tag_prefix(v@.skip(i as int)),
                prefix@.len() == i,
            decreases v.len() - i,
        {
            assert(v@.skip(i as int).drop_first() =~= v@.skip(i + 1));
            prefix.push(v[i]);
            i = i + 1;
        }
        assert(tag_prefix(v@.skip(i as int)) == Seq::<char>::empty());
        let mut lowered: Vec<char> = Vec::new();
        let mut k: usize = 0;
        while k < prefix.len()
            invariant
                k <= prefix.len(),
                lowered@ == prefix@.take(k as int).map_values(|c: char| lower(c)),
            decreases prefix.len() - k,
        {
            lowered.push(lower_char(prefix[k]));
            k = k + 1;
            assert(lowered@ =~= prefix@.take(k as int).map_values(|c: char| lower(c)));
        }
        assert(prefix@.take(prefix.len() as int) =~= prefix@);
        assert(prefix@ =~= tag_prefix(tag@));
        Self::from_code_chars(lowered.as_slice())
    }
}

} // verus!
