//! One compiler diagnostic, as the library carries it.
use vstd::prelude::*;

verus! {

/// Severity of a diagnostic.
#[derive(Debug, Clone, Copy, PartialEq, Eq, Structural)]
pub enum Category {
    Error,
    Warning,
    Message,
}

/// The lower-case name of a category.
pub open spec fn category_name(c: Category) -> Seq<char> {
    match c {
        Category::Error => seq!['e', 'r', 'r', 'o', 'r'],
        Category::Warning => seq!['w', 'a', 'r', 'n', 'i', 'n', 'g'],
        Category::Message => seq!['m', 'e', 's', 's', 'a', 'g', 'e'],
    }
}

impl Category {
    /// `"error"`, `"warning"` or `"message"`.
    pub fn as_str(&self) -> (r: &'static str)
        ensures
            r@ == category_name(*self),
    {
        match self {
            Category::Error => {
                let s = "error";
                proof {
                    reveal_strlit("error");
                }
                s
            },
            Category::Warning => {
                let s = "warning";
                proof {
                    reveal_strlit("warning");
                }
                s
            },
            Category::Message => {
                let s = "message";
                proof {
                    reveal_strlit("message");
                }
                s
            },
        }
    }
}

/// A diagnostic: where it points (absolute path, 1-based line and column),
/// its `TS` code, its category and its message. `raw_line` keeps the line of
/// compiler output it was parsed from.
#[derive(Debug, Clone)]
pub struct Diagnostic {
    pub file: Option<String>,
    pub line: Option<u32>,
    pub column: Option<u32>,
    pub code: u32,
    pub category: Category,
    pub message: String,
    pub raw_line: Option<String>,
}

pub fn clone_opt_string(s: &Option<String>) -> (r: Option<String>)
    ensures
        r == *s,
{
    match s {
        Some(x) => Some(x.clone()),
        None => None,
    }
}

impl Diagnostic {
    /// A field-for-field copy.
    pub fn duplicate(&self) -> (r: Diagnostic)
        ensures
            r == *self,
    {
        Diagnostic {
            file: clone_opt_string(&self.file),
            line: self.line,
            column: self.column,
            code: self.code,
            category: self.category,
            message: self.message.clone(),
            raw_line: clone_opt_string(&self.raw_line),
        }
    }
}

/// A diagnostic as text: what the specifications speak of.
pub struct DiagnosticView {
    pub file: Option<Seq<char>>,
    pub line: Option<u32>,
    pub column: Option<u32>,
    pub code: u32,
    pub category: Category,
    pub message: Seq<char>,
    pub raw_line: Option<Seq<char>>,
}

/// An optional text as its view.
pub open spec fn opt_text(o: Option<String>) -> Option<Seq<char>> {
    match o {
        Some(s) => Some(s@),
        None => None,
    }
}

impl Diagnostic {
    /// The diagnostic as text.
    pub open spec fn view(&self) -> DiagnosticView {
        DiagnosticView {
            file: opt_text(self.file),
            line: self.line,
            column: self.column,
            code: self.code,
            category: self.category,
            message: self.message@,
            raw_line: opt_text(self.raw_line),
        }
    }
}

/// The views of a sequence of diagnostics.
pub open spec fn diag_views(ds: Seq<Diagnostic>) -> Seq<DiagnosticView> {
    ds.map_values(|d: Diagnostic| d@)
}

} // verus!
