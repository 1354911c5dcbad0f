//! The highlighting engine: the syntax definitions and the theme, and what renders a
//! text with them.
//!
//! Nothing in here is proved of the engine itself. What is stated of it is what its
//! documentation and source show; what it renders is only given a name.

use syntect::highlighting::{Theme, ThemeSet};
use syntect::parsing::{SyntaxReference, SyntaxSet};
use vstd::prelude::*;
use vstd::slice::slice_to_vec;
use vstd::string::StringSliceAdditionalSpecFns;
use vstd::utf8::{decode_utf8, encode_utf8, encode_utf8_decode_utf8, valid_utf8};

verus! {

/// The name of the theme that everything is rendered with.
pub const THEME: &'static str = "InspiredGitHub";

/// The engine's set of syntax definitions.
#[verifier::external_type_specification]
#[verifier::external_body]
pub struct ExSyntaxSet(SyntaxSet);

/// One syntax definition of a set.
#[verifier::external_type_specification]
#[verifier::external_body]
pub struct ExSyntaxReference(SyntaxReference);

/// The engine's set of themes.
#[verifier::external_type_specification]
#[verifier::external_body]
pub struct ExThemeSet(ThemeSet);

/// One theme.
#[verifier::external_type_specification]
#[verifier::external_body]
pub struct ExTheme(Theme);

/// What the engine reports when it cannot render.
#[verifier::external_type_specification]
#[verifier::external_body]
pub struct ExEngineError(syntect::Error);

/// Why bytes are no text.
#[verifier::external_type_specification]
#[verifier::external_body]
pub struct ExUtf8Error(core::str::Utf8Error);

/// The syntax that `SyntaxSet::find_syntax_by_token` finds in `set` for `token`.
pub uninterp spec fn syntax_by_token(set: SyntaxSet, token: Seq<char>) -> Option<SyntaxReference>;

/// The syntax for plain text that `set` holds, if it holds one.
pub uninterp spec fn plain_text_syntax(set: SyntaxSet) -> Option<SyntaxReference>;

/// The themes that `set` holds, by their names.
pub uninterp spec fn themes_of(set: ThemeSet) -> Map<Seq<char>, Theme>;

/// The HTML that `syntect::html::highlighted_html_for_string` makes of `text`, read as
/// `syntax` of `set` and coloured by `theme`; `None` where it reports an error.
pub uninterp spec fn highlighted_html(
    text: Seq<char>,
    set: SyntaxSet,
    syntax: SyntaxReference,
    theme: Theme,
) -> Option<Seq<char>>;

/// `syntax` is one of the syntaxes that `set` hands out.
pub open spec fn syntax_of(set: SyntaxSet, syntax: SyntaxReference) -> bool {
    plain_text_syntax(set) == Some(syntax) || exists|token: Seq<char>|
        #[trigger] syntax_by_token(set, token) == Some(syntax)
}

/// `SyntaxSet::load_defaults_newlines`: the set of syntaxes that is built into the
/// engine. It holds a syntax for plain text.
pub assume_specification[ SyntaxSet::load_defaults_newlines ]() -> (set: SyntaxSet)
    ensures
        plain_text_syntax(set) is Some,
;

/// `ThemeSet::load_defaults`: the set of themes that is built into the engine. One of
/// them is `InspiredGitHub`.
pub assume_specification[ ThemeSet::load_defaults ]() -> (set: ThemeSet)
    ensures
        themes_of(set).dom().contains(THEME@),
;

/// `SyntaxSet::find_syntax_by_token`: the syntax that has `token` as a file extension
/// or, failing that, as its name, the case of letters apart. What comes back depends on
/// the set and the token alone.
pub assume_specification<'a>[ SyntaxSet::find_syntax_by_token ](
    set: &'a SyntaxSet,
    token: &str,
) -> (found: Option<&'a SyntaxReference>)
    ensures
        match found {
            Some(syntax) => syntax_by_token(*set, token@) == Some(*syntax),
            None => syntax_by_token(*set, token@) is None,
        },
;

/// `SyntaxSet::find_syntax_plain_text`: the syntax for plain text. It panics on a set
/// that holds none.
pub assume_specification[ SyntaxSet::find_syntax_plain_text ](set: &SyntaxSet) -> (syntax:
    &SyntaxReference)
    requires
        plain_text_syntax(*set) is Some,
    ensures
        plain_text_syntax(*set) == Some(*syntax),
;

/// `core::str::from_utf8`: the bytes as text where they are UTF-8, and an error where
/// they are not.
pub assume_specification[ core::str::from_utf8 ](bytes: &[u8]) -> (text: Result<
    &str,
    core::str::Utf8Error,
>)
    ensures
        match text {
            Ok(s) => valid_utf8(bytes@) && s.spec_bytes() == bytes@,
            Err(_) => !valid_utf8(bytes@),
        },
;

/// The theme of `set` that has the name `name`: the entry of `ThemeSet::themes` under
/// that key. Indexing panics where there is no such entry.
#[verifier::external_body]
fn theme_named<'a>(set: &'a ThemeSet, name: &str) -> (theme: &'a Theme)
    requires
        themes_of(*set).dom().contains(name@),
    ensures
        *theme == themes_of(*set)[name@],
{
    &set.themes[name]
}

/// The highlighting engine with its built-in syntaxes and themes. There is no other way
/// to one than `Engine::load_defaults`.
pub struct Engine {
    syntaxes: SyntaxSet,
    themes: ThemeSet,
}

/// `syntect::html::highlighted_html_for_string`, called with the engine's set of
/// syntaxes, one of its syntaxes and its theme: the text as HTML, or an error. What
/// comes back depends on the text, the set, the syntax and the theme alone.
///
/// The call can panic on a set that was built by hand from syntaxes that lack what
/// the parser looks for. No such set gets here: an `Engine` is made by
/// `Engine::load_defaults` alone, and holds the built-in set.
#[verifier::external_body]
fn highlight_as(engine: &Engine, syntax: &SyntaxReference, theme: &Theme, text: &str) -> (made:
    Result<String, syntect::Error>)
    requires
        syntax_of(engine.syntax_set(), *syntax),
        *theme == engine.theme(),
    ensures
        match made {
            Ok(html) => highlighted_html(text@, engine.syntax_set(), *syntax, *theme) == Some(
                html@,
            ),
            Err(_) => highlighted_html(text@, engine.syntax_set(), *syntax, *theme) is None,
        },
{
    syntect::html::highlighted_html_for_string(text, &engine.syntaxes, syntax, theme)
}

impl Engine {
    #[verifier::type_invariant]
    spec fn ready(self) -> bool {
        &&& plain_text_syntax(self.syntaxes) is Some
        &&& themes_of(self.themes).dom().contains(THEME@)
    }

    /// The syntaxes that the engine knows.
    pub closed spec fn syntax_set(self) -> SyntaxSet {
        self.syntaxes
    }

    /// The one theme that the engine renders with.
    pub closed spec fn theme(self) -> Theme {
        themes_of(self.themes)[THEME@]
    }

    /// The syntax that a text is read as when `language` is declared for it: the one
    /// that the engine finds for `language`, and the one for plain text where it finds
    /// none, or where `language` is no text at all.
    pub open spec fn syntax_for(self, language: Seq<u8>) -> SyntaxReference {
        let found = if valid_utf8(language) {
            syntax_by_token(self.syntax_set(), decode_utf8(language))
        } else {
            None
        };
        match found {
            Some(syntax) => syntax,
            None => plain_text_syntax(self.syntax_set())->0,
        }
    }

    /// What the engine makes of `text`, declared as `language`: the HTML as bytes, or
    /// `None` where the bytes of `text` are no text or the engine reports an error.
    pub open spec fn rendered(self, language: Seq<u8>, text: Seq<u8>) -> Option<Seq<u8>> {
        if valid_utf8(text) {
            match highlighted_html(
                decode_utf8(text),
                self.syntax_set(),
                self.syntax_for(language),
                self.theme(),
            ) {
                Some(html) => Some(encode_utf8(html)),
                None => None,
            }
        } else {
            None
        }
    }

    /// Loads the syntaxes and themes that are built into the engine. Among the syntaxes
    /// is the one for plain text.
    pub fn load_defaults() -> (engine: Engine)
        ensures
            plain_text_syntax(engine.syntax_set()) is Some,
    {
        Engine { syntaxes: SyntaxSet::load_defaults_newlines(), themes: ThemeSet::load_defaults() }
    }

    /// Finds the syntax for `language`, with plain text to fall back on.
    fn find_syntax(&self, language: &[u8]) -> (syntax: &SyntaxReference)
        ensures
            *syntax == self.syntax_for(language@),
            syntax_of(self.syntax_set(), *syntax),
    {
        proof {
            use_type_invariant(self);
        }
        let found = match core::str::from_utf8(language) {
            Ok(token) => {
                proof {
                    encode_utf8_decode_utf8(token@);
                }
                self.syntaxes.find_syntax_by_token(token)
            },
            Err(_) => None,
        };
        match found {
            Some(syntax) => syntax,
            None => self.syntaxes.find_syntax_plain_text(),
        }
    }

    /// Renders `text` as HTML, highlighted as `language`.
    ///
    /// A language that the engine does not know is no error: the text is then rendered
    /// as plain text.
    pub fn render(&self, language: &[u8], text: &[u8]) -> (html: Option<Vec<u8>>)
        ensures
            match html {
                Some(bytes) => self.rendered(language@, text@) == Some(bytes@),
                None => self.rendered(language@, text@) is None,
            },
    {
        proof {
            use_type_invariant(self);
        }
        let source = match core::str::from_utf8(text) {
            Ok(source) => source,
            Err(_) => {
                return None;
            },
        };
        proof {
            encode_utf8_decode_utf8(source@);
        }
        let syntax = self.find_syntax(language);
        let theme = theme_named(&self.themes, THEME);
        match highlight_as(self, syntax, theme, source) {
            Ok(html) => Some(slice_to_vec(html.as_str().as_bytes())),
            Err(_) => None,
        }
    }
}

} // verus!
