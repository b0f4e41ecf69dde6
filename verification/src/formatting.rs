//! Diagnostic output through the formatters of the standard library.

use std::fmt::Formatter;

use vstd::prelude::*;

verus! {

/// The formatter of the standard library, which text is written to.
#[verifier::external_type_specification]
#[verifier::external_body]
pub struct ExFormatter<'a>(std::fmt::Formatter<'a>);

/// That a formatter could not take text in.
#[verifier::external_type_specification]
#[verifier::external_body]
pub struct ExFmtError(std::fmt::Error);

/// The text that was written to a formatter.
pub uninterp spec fn written(formatter: Formatter<'_>) -> Seq<char>;

/// Whether a formatter asks for the alternate form, as [`Formatter::alternate`]
/// tells.
pub uninterp spec fn is_alternate(formatter: Formatter<'_>) -> bool;

/// [`Formatter::alternate`] tells whether the `#` flag was given.
pub assume_specification<'a>[ std::fmt::Formatter::<'a>::alternate ](
    formatter: &std::fmt::Formatter<'a>,
) -> (alternate: bool)
    ensures
        alternate == is_alternate(*formatter),
;

/// [`Formatter::write_str`] writes the text behind what was written before,
/// unless what is underneath the formatter fails.
pub assume_specification<'a>[ std::fmt::Formatter::<'a>::write_str ](
    formatter: &mut std::fmt::Formatter<'a>,
    data: &str,
) -> (outcome: std::fmt::Result)
    ensures
        outcome is Ok ==> written(*final(formatter)) == written(*old(formatter)) + data@,
;

/// A tuple with a name and one text: on one line, or in the alternate form with
/// the text on a line of its own.
pub open spec fn tuple_text(alternate: bool, name: Seq<char>, text: Seq<char>) -> Seq<char> {
    if alternate {
        name + "(\n    \""@ + text + "\",\n)"@
    } else {
        name + "(\""@ + text + "\")"@
    }
}

/// A tuple is shown with its name first and the text in quotes and brackets;
/// the alternate form puts the text on a line of its own, indented by four
/// spaces and followed by a comma.
pub proof fn lemma_how_a_tuple_is_shown(name: Seq<char>, text: Seq<char>)
    ensures
        tuple_text(false, name, text) == name + seq!['(', '"'] + text + seq!['"', ')'],
        tuple_text(true, name, text) == name + seq!['(', '\n', ' ', ' ', ' ', ' ', '"'] + text
            + seq!['"', ',', '\n', ')'],
{
    reveal_strlit("(\"");
    reveal_strlit("\")");
    reveal_strlit("(\n    \"");
    reveal_strlit("\",\n)");
    assert("(\""@ =~= seq!['(', '"']);
    assert("\")"@ =~= seq!['"', ')']);
    assert("(\n    \""@ =~= seq!['(', '\n', ' ', ' ', ' ', ' ', '"']);
    assert("\",\n)"@ =~= seq!['"', ',', '\n', ')']);
}

/// A tuple with a name and one text, which needs no escapes.
pub fn tuple(alternate: bool, name: &str, text: &str) -> (shown: String)
    ensures
        shown@ == tuple_text(alternate, name@, text@),
{
    let mut shown: String = name.to_owned();
    if alternate {
        shown.append("(\n    \"");
        shown.append(text);
        shown.append("\",\n)");
    } else {
        shown.append("(\"");
        shown.append(text);
        shown.append("\")");
    }
    shown
}

/// Writes a tuple with a name and one text, which needs no escapes.
pub fn write_tuple(formatter: &mut Formatter<'_>, name: &str, text: &str) -> (outcome:
    std::fmt::Result)
    ensures
        outcome is Ok ==> written(*final(formatter)) == written(*old(formatter)) + tuple_text(
            is_alternate(*old(formatter)),
            name@,
            text@,
        ),
{
    let shown: String = tuple(formatter.alternate(), name, text);
    formatter.write_str(shown.as_str())
}

} // verus!
