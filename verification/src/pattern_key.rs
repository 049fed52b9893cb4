use vstd::prelude::*;

verus! {

/// The key that starts a suggestion pattern.
#[derive(Clone, Debug, PartialEq, Eq)]
pub enum PatternKey {
    At,
    Hash,
    Slash,
    Custom(String),
}

/// The pattern that a string stands for, given the custom patterns the
/// client registered.
pub open spec fn pattern_of(s: Seq<char>, custom: Seq<Seq<char>>) -> Option<PatternKey> {
    if custom.contains(s) {
        None
    } else if s.len() == 0 {
        None
    } else if s[0] == '@' {
        Some(PatternKey::At)
    } else if s[0] == '#' {
        Some(PatternKey::Hash)
    } else if s[0] == '/' {
        Some(PatternKey::Slash)
    } else {
        None
    }
}

impl PatternKey {
    /// True for the built-in patterns `@`, `#` and `/`.
    pub fn is_static_pattern(&self) -> (b: bool)
        ensures
            b == !(self is Custom),
    {
        match self {
            PatternKey::At | PatternKey::Hash | PatternKey::Slash => true,
            PatternKey::Custom(_) => false,
        }
    }

    /// The pattern that `string` stands for: a custom one when the client
    /// registered it, else the built-in one its first character names.
    /// The custom patterns are given as a list; only whether `string` is
    /// among them matters, so one may occur more than once.
    pub fn from_string_and_suggestions(
        string: String,
        custom_suggestion_patterns: &Vec<String>,
    ) -> (p: Option<Self>)
        ensures
            custom_suggestion_patterns@.map_values(|x: String| x@).contains(string@) ==> (
            p matches Some(PatternKey::Custom(c)) && c@ == string@),
            !custom_suggestion_patterns@.map_values(|x: String| x@).contains(string@) ==> p
                == pattern_of(string@, custom_suggestion_patterns@.map_values(|x: String| x@)),
    {
        let ghost custom = custom_suggestion_patterns@.map_values(|x: String| x@);
        let mut i: usize = 0;
        while i < custom_suggestion_patterns.len()
            invariant
                i <= custom_suggestion_patterns@.len(),
                custom == custom_suggestion_patterns@.map_values(|x: String| x@),
                forall|j: int| 0 <= j < i ==> custom[j] != string@,
            decreases custom_suggestion_patterns@.len() - i,
        {
            if custom_suggestion_patterns[i] == string {
                assert(custom[i as int] == string@);
                return Some(PatternKey::Custom(string));
            }
            i += 1;
        }
        assert(!custom.contains(string@));
        if string.as_str().unicode_len() == 0 {
            return None;
        }
        let first_char = string.as_str().get_char(0);
        if first_char == '@' {
            Some(PatternKey::At)
        } else if first_char == '#' {
            Some(PatternKey::Hash)
        } else if first_char == '/' {
            Some(PatternKey::Slash)
        } else {
            None
        }
    }
}

} // verus!
