//! A style source: the text of a stylesheet, and what its tokens and
//! declarations stand for once a tokenizer has split the text.

use vstd::prelude::*;
use crate::error::UIError;
use crate::style::{Color, FlexDirection, Margin, Padding, SizeValue, UIStyleRules, Unit};

verus! {

/// One token of a stylesheet, as far as lengths are read from it.
#[derive(Debug, Clone, PartialEq, Eq)]
pub enum StyleToken {
    /// A number with a unit, such as `12px`.
    Dimension { value: u32, unit: String },
    /// A percentage, such as `50%`.
    Percentage(u16),
    /// A keyword.
    Ident(String),
    /// Any other token.
    Other,
}

/// The length that a token stands for: pixels for a number with the unit
/// `px`, a percentage for a percentage, all of the reference length for
/// the keyword `auto`; nothing for any other token.
pub open spec fn unit_of(token: StyleToken) -> Option<Unit> {
    match token {
        StyleToken::Dimension { value, unit } => if unit@ == "px"@ {
            Some(Unit::Pixel(value))
        } else {
            None
        },
        StyleToken::Percentage(percent) => Some(Unit::Percent(percent)),
        StyleToken::Ident(word) => if word@ == "auto"@ {
            Some(Unit::Percent(100))
        } else {
            None
        },
        StyleToken::Other => None,
    }
}

/// The size that a token stands for: an explicit length for a number with
/// the unit `px` or a percentage, the automatic size for the keyword
/// `auto`, the size of the content for `fit-content`; nothing for any
/// other token.
pub open spec fn size_value_of(token: StyleToken) -> Option<SizeValue> {
    match token {
        StyleToken::Dimension { value, unit } => if unit@ == "px"@ {
            Some(SizeValue::Unit(Unit::Pixel(value)))
        } else {
            None
        },
        StyleToken::Percentage(percent) => Some(SizeValue::Unit(Unit::Percent(percent))),
        StyleToken::Ident(word) => if word@ == "auto"@ {
            Some(SizeValue::Auto)
        } else if word@ == "fit-content"@ {
            Some(SizeValue::FitContent)
        } else {
            None
        },
        StyleToken::Other => None,
    }
}

/// Whether a text is the given keyword.
fn is_word(text: &String, word: &str) -> (r: bool)
    ensures
        r == (text@ == word@),
{
    *text == word.to_owned()
}

/// Reads a length from a token; a token that stands for none is refused.
pub fn unpack_value_as_unit(token: &StyleToken) -> (r: Result<Unit, UIError>)
    ensures
        match r {
            Ok(unit) => unit_of(*token) == Some(unit),
            Err(e) => unit_of(*token).is_none() && e == UIError::MalformedStyleUnit,
        },
{
    match token {
        StyleToken::Dimension { value, unit } => {
            if is_word(unit, "px") {
                Ok(Unit::Pixel(*value))
            } else {
                Err(UIError::MalformedStyleUnit)
            }
        },
        StyleToken::Percentage(percent) => Ok(Unit::Percent(*percent)),
        StyleToken::Ident(word) => {
            if is_word(word, "auto") {
                Ok(Unit::Percent(100))
            } else {
                Err(UIError::MalformedStyleUnit)
            }
        },
        StyleToken::Other => Err(UIError::MalformedStyleUnit),
    }
}

/// Reads a size from a token; a token that stands for none is refused.
pub fn unpack_size_value_as_unit(token: &StyleToken) -> (r: Result<SizeValue, UIError>)
    ensures
        match r {
            Ok(size) => size_value_of(*token) == Some(size),
            Err(e) => size_value_of(*token).is_none() && e == UIError::MalformedStyleUnit,
        },
{
    match token {
        StyleToken::Dimension { value, unit } => {
            if is_word(unit, "px") {
                Ok(SizeValue::Unit(Unit::Pixel(*value)))
            } else {
                Err(UIError::MalformedStyleUnit)
            }
        },
        StyleToken::Percentage(percent) => Ok(SizeValue::Unit(Unit::Percent(*percent))),
        StyleToken::Ident(word) => {
            if is_word(word, "auto") {
                Ok(SizeValue::Auto)
            } else if is_word(word, "fit-content") {
                Ok(SizeValue::FitContent)
            } else {
                Err(UIError::MalformedStyleUnit)
            }
        },
        StyleToken::Other => Err(UIError::MalformedStyleUnit),
    }
}

/// The text of one stylesheet.
pub struct UICSSSource {
    data: String,
}

impl UICSSSource {
    /// The text of the stylesheet.
    pub closed spec fn text(&self) -> Seq<char> {
        self.data@
    }

    /// A source with the given text.
    pub fn new(data: String) -> (r: UICSSSource)
        ensures
            r.text() == data@,
    {
        UICSSSource { data }
    }

    /// The text of the stylesheet.
    pub fn data(&self) -> (r: &String)
        ensures
            r@ == self.text(),
    {
        &self.data
    }
}

/// The direction that a token stands for: the keywords `row` and `col`;
/// nothing for any other token.
pub open spec fn direction_of(token: StyleToken) -> Option<FlexDirection> {
    match token {
        StyleToken::Ident(word) => if word@ == "row"@ {
            Some(FlexDirection::Row)
        } else if word@ == "col"@ {
            Some(FlexDirection::Col)
        } else {
            None
        },
        _ => None,
    }
}

/// What a declaration makes of a record: the record with the property's
/// field set to what the token stands for, or the reason why it cannot be.
/// `color` is the colour that the token's text names, if it names one.
///
/// `flex-direction` takes a direction; `width` and `height` take a size;
/// `gap` takes a length; `padding` and `margin` take a length for all four
/// sides; `background-color` takes a colour.
pub open spec fn declared(
    rules: UIStyleRules,
    property: Seq<char>,
    token: StyleToken,
    color: Option<Color>,
) -> Result<UIStyleRules, UIError> {
    if property == "flex-direction"@ {
        match direction_of(token) {
            Some(direction) => Ok(UIStyleRules { flex_direction: Some(direction), ..rules }),
            None => Err(UIError::MalformedStyleValue),
        }
    } else if property == "width"@ {
        match size_value_of(token) {
            Some(size) => Ok(UIStyleRules { width: Some(size), ..rules }),
            None => Err(UIError::MalformedStyleUnit),
        }
    } else if property == "height"@ {
        match size_value_of(token) {
            Some(size) => Ok(UIStyleRules { height: Some(size), ..rules }),
            None => Err(UIError::MalformedStyleUnit),
        }
    } else if property == "padding"@ {
        match unit_of(token) {
            Some(u) => Ok(
                UIStyleRules {
                    padding: Padding { left: Some(u), right: Some(u), bottom: Some(u), top: Some(u) },
                    ..rules
                },
            ),
            None => Err(UIError::MalformedStyleUnit),
        }
    } else if property == "margin"@ {
        match unit_of(token) {
            Some(u) => Ok(
                UIStyleRules {
                    margin: Margin { left: Some(u), right: Some(u), bottom: Some(u), top: Some(u) },
                    ..rules
                },
            ),
            None => Err(UIError::MalformedStyleUnit),
        }
    } else if property == "gap"@ {
        match unit_of(token) {
            Some(u) => Ok(UIStyleRules { gap: Some(u), ..rules }),
            None => Err(UIError::MalformedStyleUnit),
        }
    } else if property == "background-color"@ {
        match color {
            Some(c) => Ok(UIStyleRules { background_color: Some(c), ..rules }),
            None => Err(UIError::MalformedStyleValue),
        }
    } else {
        Err(UIError::UnsupportedProperty)
    }
}

/// Reads a direction from a token; a token that stands for none is refused.
pub fn unpack_direction(token: &StyleToken) -> (r: Result<FlexDirection, UIError>)
    ensures
        match r {
            Ok(direction) => direction_of(*token) == Some(direction),
            Err(e) => direction_of(*token).is_none() && e == UIError::MalformedStyleValue,
        },
{
    match token {
        StyleToken::Ident(word) => {
            if is_word(word, "row") {
                Ok(FlexDirection::Row)
            } else if is_word(word, "col") {
                Ok(FlexDirection::Col)
            } else {
                Err(UIError::MalformedStyleValue)
            }
        },
        _ => Err(UIError::MalformedStyleValue),
    }
}

/// Applies one declaration of a stylesheet to a record: sets the field of
/// the property to what the token stands for. `color` is the colour that
/// the token's text names, if it names one. A property that is not known
/// and a value that cannot be read are refused, and the record stays as it
/// was.
pub fn apply_property(
    rules: &mut UIStyleRules,
    property: &str,
    token: &StyleToken,
    color: Option<Color>,
) -> (r: Result<(), UIError>)
    ensures
        match declared(*old(rules), property@, *token, color) {
            Ok(after) => r.is_ok() && *final(rules) == after,
            Err(e) => r == Err::<(), UIError>(e) && *final(rules) == *old(rules),
        },
{
    let name = property.to_owned();
    if is_word(&name, "flex-direction") {
        match unpack_direction(token) {
            Ok(direction) => {
                rules.flex_direction = Some(direction);
                Ok(())
            },
            Err(e) => Err(e),
        }
    } else if is_word(&name, "width") {
        match unpack_size_value_as_unit(token) {
            Ok(size) => {
                rules.width = Some(size);
                Ok(())
            },
            Err(e) => Err(e),
        }
    } else if is_word(&name, "height") {
        match unpack_size_value_as_unit(token) {
            Ok(size) => {
                rules.height = Some(size);
                Ok(())
            },
            Err(e) => Err(e),
        }
    } else if is_word(&name, "padding") {
        match unpack_value_as_unit(token) {
            Ok(unit) => {
                rules.padding = Padding {
                    left: Some(unit),
                    right: Some(unit),
                    bottom: Some(unit),
                    top: Some(unit),
                };
                Ok(())
            },
            Err(e) => Err(e),
        }
    } else if is_word(&name, "margin") {
        match unpack_value_as_unit(token) {
            Ok(unit) => {
                rules.margin = Margin {
                    left: Some(unit),
                    right: Some(unit),
                    bottom: Some(unit),
                    top: Some(unit),
                };
                Ok(())
            },
            Err(e) => Err(e),
        }
    } else if is_word(&name, "gap") {
        match unpack_value_as_unit(token) {
            Ok(unit) => {
                rules.gap = Some(unit);
                Ok(())
            },
            Err(e) => Err(e),
        }
    } else if is_word(&name, "background-color") {
        match color {
            Some(c) => {
                rules.background_color = Some(c);
                Ok(())
            },
            None => Err(UIError::MalformedStyleValue),
        }
    } else {
        Err(UIError::UnsupportedProperty)
    }
}

/// One declaration of a class block: a property, the token of its value,
/// and the colour that the token's text names, if it names one.
#[derive(Debug, Clone, PartialEq, Eq)]
pub struct Declaration {
    pub property: String,
    pub token: StyleToken,
    pub color: Option<Color>,
}

/// What the declarations of a class block make of the unset record, taken
/// in order; the error of the first declaration that is refused, if one
/// is.
pub open spec fn declared_all(declarations: Seq<Declaration>) -> Result<UIStyleRules, UIError>
    decreases declarations.len(),
{
    if declarations.len() == 0 {
        Ok(UIStyleRules::unset())
    } else {
        match declared_all(declarations.drop_last()) {
            Ok(rules) => declared(
                rules,
                declarations.last().property@,
                declarations.last().token,
                declarations.last().color,
            ),
            Err(e) => Err(e),
        }
    }
}

/// The rule record of a class block: the unset record with every
/// declaration applied in order. The first declaration that is refused
/// ends the reading with its error.
pub fn build_rules(declarations: &Vec<Declaration>) -> (r: Result<UIStyleRules, UIError>)
    ensures
        r == declared_all(declarations@),
{
    let mut rules = UIStyleRules::new();
    let mut k: usize = 0;
    assert(declarations@.take(0) =~= Seq::<Declaration>::empty());
    while k < declarations.len()
        invariant
            k <= declarations@.len(),
            declared_all(declarations@.take(k as int)) == Ok::<UIStyleRules, UIError>(rules),
        decreases declarations@.len() - k,
    {
        let ghost next = declarations@.take(k + 1);
        proof {
            assert(next.drop_last() =~= declarations@.take(k as int));
            assert(next.last() == declarations@[k as int]);
        }
        let declaration = &declarations[k];
        match apply_property(
            &mut rules,
            declaration.property.as_str(),
            &declaration.token,
            declaration.color,
        ) {
            Ok(_) => {},
            Err(e) => {
                proof {
                    lemma_refused_stays(declarations@, k + 1);
                }
                return Err(e);
            },
        }
        k += 1;
    }
    assert(declarations@.take(k as int) =~= declarations@);
    Ok(rules)
}

/// Once a declaration is refused, the declarations after it change
/// nothing: the reading ends with its error.
pub proof fn lemma_refused_stays(declarations: Seq<Declaration>, upto: int)
    requires
        0 <= upto <= declarations.len(),
        declared_all(declarations.take(upto)).is_err(),
    ensures
        declared_all(declarations) == declared_all(declarations.take(upto)),
    decreases declarations.len() - upto,
{
    if upto < declarations.len() {
        let next = declarations.take(upto + 1);
        assert(next.drop_last() =~= declarations.take(upto));
        lemma_refused_stays(declarations, upto + 1);
    } else {
        assert(declarations.take(upto) =~= declarations);
    }
}

} // verus!
