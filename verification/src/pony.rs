use crate::balloon::{balloon, create_balloon, measured};
use crate::compose::{compose, composed, lemma_shown_is_plain};
use crate::paths::{template_name, to_pony_name};
use crate::template::{dollar_free, literal_of, parse, parse_pony, ParseError, TemplateView};
use crate::wrap::quote_lines;
use crate::text::same_text;
use vstd::prelude::*;

verus! {

/// A character that can say a quote: the path of its template, the name
/// under which it goes, and the text of the template once it was loaded.
#[derive(Debug)]
pub struct Pony {
    path: String,
    name: String,
    pony: Option<String>,
}

/// What a `Pony` stands for.
pub struct PonyView {
    pub path: Seq<char>,
    pub name: Seq<char>,
    pub content: Option<Seq<char>>,
}

/// Why a character cannot be shown.
#[derive(Clone, Copy, Debug, PartialEq, Eq, Structural)]
pub enum DisplayError {
    /// The text of the template was not loaded yet.
    NotLoaded,
    /// The text is no template.
    Parse(ParseError),
}

/// The character that the template at `path` describes before its text is
/// loaded, where the path leads to a template.
pub open spec fn pony_at(path: Seq<char>) -> Option<PonyView> {
    match template_name(path) {
        Some(name) => Some(PonyView { path, name, content: None }),
        None => None,
    }
}

/// What a character shows for a quote: its template with the balloon of the
/// quote in it.
pub open spec fn displayed(pony: PonyView, quote: Seq<char>) -> Result<Seq<char>, DisplayError> {
    match pony.content {
        None => Err(DisplayError::NotLoaded),
        Some(text) => match parse(text) {
            Ok(template) => Ok(composed(template.tokens, balloon(measured(quote_lines(quote))))),
            Err(e) => Err(DisplayError::Parse(e)),
        },
    }
}

impl View for Pony {
    type V = PonyView;

    closed spec fn view(&self) -> PonyView {
        PonyView {
            path: self.path@,
            name: self.name@,
            content: match self.pony {
                Some(text) => Some(text@),
                None => None,
            },
        }
    }
}

impl DeepView for Pony {
    type V = PonyView;

    open spec fn deep_view(&self) -> PonyView {
        self@
    }
}

impl Pony {
    /// A character goes by the name that its path gives it.
    #[verifier::type_invariant]
    spec fn named_by_path(self) -> bool {
        template_name(self.path@) == Some(self.name@)
    }

    /// The character that the template at `path` describes, where the path
    /// leads to a template: its file must have the extension `pony`. The
    /// text of the template is not loaded yet.
    pub fn new(path: String) -> (pony: Option<Pony>)
        ensures
            match pony {
                Some(pony) => pony_at(path@) == Some(pony@),
                None => pony_at(path@) is None,
            },
    {
        match to_pony_name(path.as_str()) {
            Some(name) => Some(Pony { path, name, pony: None }),
            None => None,
        }
    }

    /// The path of the template.
    pub fn path(&self) -> (path: &str)
        ensures
            path@ == self@.path,
    {
        self.path.as_str()
    }

    /// The name of the character: the stem of the template's file name.
    pub fn name(&self) -> (name: &str)
        ensures
            name@ == self@.name,
            template_name(self@.path) == Some(self@.name),
    {
        proof {
            use_type_invariant(self);
        }
        self.name.as_str()
    }

    /// Whether the text of the template was loaded.
    pub fn is_loaded(&self) -> (loaded: bool)
        ensures
            loaded == self@.content is Some,
    {
        self.pony.is_some()
    }

    /// Hands the character the text of its template. The text is kept from
    /// the first time on: a character that has its text keeps it.
    pub fn load(&mut self, text: String)
        ensures
            final(self)@.path == old(self)@.path,
            final(self)@.name == old(self)@.name,
            final(self)@.content == (match old(self)@.content {
                Some(kept) => Some(kept),
                None => Some(text@),
            }),
    {
        proof {
            use_type_invariant(&*self);
        }
        if self.pony.is_none() {
            self.pony = Some(text);
        }
    }

    /// Shows the character saying the quote: the balloon of the quote is put
    /// into the template's body. This fails where the text of the template
    /// was not loaded, and where it is no template. What is shown for a
    /// quote without `$` holds no `$`: read as a template it is one literal,
    /// so that header, stems and slot are used up and do not come back.
    pub fn display(&self, pony_quote: String) -> (shown: Result<String, DisplayError>)
        ensures
            match displayed(self@, pony_quote@) {
                Ok(text) => shown matches Ok(out) && out@ == text,
                Err(e) => shown == Err::<String, _>(e),
            },
            dollar_free(pony_quote@) ==> (shown matches Ok(out) ==> dollar_free(out@) && parse(out@)
                == Ok::<_, ParseError>(
                TemplateView { metadata: Seq::empty(), tokens: literal_of(out@) },
            )),
    {
        match &self.pony {
            None => Err(DisplayError::NotLoaded),
            Some(text) => match parse_pony(text.as_str()) {
                Ok(template) => {
                    let balloon = create_balloon(pony_quote.as_str());
                    proof {
                        if dollar_free(pony_quote@) {
                            lemma_shown_is_plain(text@, balloon@);
                        }
                    }
                    Ok(compose(&template.tokens, balloon.as_str()))
                },
                Err(e) => Err(DisplayError::Parse(e)),
            },
        }
    }
}

impl PartialEq for Pony {
    /// Two characters are the same where their templates are at the same
    /// path.
    fn eq(&self, other: &Self) -> (same: bool) {
        same_text(self.path.as_str(), other.path.as_str())
    }
}

impl Eq for Pony {

}

impl vstd::std_specs::cmp::PartialEqSpecImpl for Pony {
    open spec fn obeys_eq_spec() -> bool {
        true
    }

    open spec fn eq_spec(&self, other: &Self) -> bool {
        self@.path == other@.path
    }
}

} // verus!
