//! The rules of the input of the index-generating macro: which fields it takes
//! (`name`, `path`, `layout`), in what combinations, and what is read next.
use vstd::prelude::*;
use vstd::string::StringExecFns;

verus! {

/// A field of the macro input.
#[derive(Debug, Copy, Clone, PartialEq, Eq, Structural)]
pub enum InputField {
    /// `name: Ident`, the name of the generated index.
    Name,
    /// `path: "file"`, a file that holds the layout.
    Path,
    /// `layout: [..]`, the layout itself.
    Layout,
}

/// Why a macro input is refused.
#[derive(Debug, Copy, Clone, PartialEq, Eq, Structural)]
pub enum InputError {
    /// The field was given before.
    AlreadyDefined(InputField),
    /// A field that the macro does not take.
    UnknownField,
    /// Both a layout and a path to one.
    LayoutAndPath,
    /// Neither a layout nor a path.
    NoLayout,
    /// No name.
    NoName,
}

impl InputError {
    /// The message that reports the error (for an unknown field, the field's
    /// name follows it, between backquotes).
    pub fn message(&self) -> (r: &'static str)
        ensures
            r@ == (match *self {
                InputError::AlreadyDefined(InputField::Name) => "`name` is already defined!"@,
                InputError::AlreadyDefined(InputField::Path) => "`path` is already defined!"@,
                InputError::AlreadyDefined(InputField::Layout) => "`layout` is already defined!"@,
                InputError::UnknownField => "No rule to process field"@,
                InputError::LayoutAndPath => "Cannot have both `layout` and `path` fields!"@,
                InputError::NoLayout => "No `layout` or `path` specified!"@,
                InputError::NoName => "No `name` specified!"@,
            }),
    {
        match self {
            InputError::AlreadyDefined(InputField::Name) => "`name` is already defined!",
            InputError::AlreadyDefined(InputField::Path) => "`path` is already defined!",
            InputError::AlreadyDefined(InputField::Layout) => "`layout` is already defined!",
            InputError::UnknownField => "No rule to process field",
            InputError::LayoutAndPath => "Cannot have both `layout` and `path` fields!",
            InputError::NoLayout => "No `layout` or `path` specified!",
            InputError::NoName => "No `name` specified!",
        }
    }
}

/// Which fields the macro input has given so far. A layout read from the file
/// at a path counts as a given layout.
#[derive(Debug, Copy, Clone, PartialEq, Eq, Structural)]
pub struct MacroInputState {
    pub has_name: bool,
    pub has_path: bool,
    pub has_layout: bool,
}

/// The field that the identifier `f` names, if any.
pub open spec fn field_named(f: Seq<char>) -> Option<InputField> {
    if f == "name"@ {
        Some(InputField::Name)
    } else if f == "path"@ {
        Some(InputField::Path)
    } else if f == "layout"@ {
        Some(InputField::Layout)
    } else {
        None
    }
}

impl MacroInputState {
    /// Whether field `f` was given.
    pub open spec fn given(self, f: InputField) -> bool {
        match f {
            InputField::Name => self.has_name,
            InputField::Path => self.has_path,
            InputField::Layout => self.has_layout,
        }
    }

    /// The state with field `f` given.
    pub open spec fn with(self, f: InputField) -> Self {
        match f {
            InputField::Name => MacroInputState { has_name: true, ..self },
            InputField::Path => MacroInputState { has_path: true, ..self },
            InputField::Layout => MacroInputState { has_layout: true, ..self },
        }
    }

    /// No field given yet.
    pub fn new() -> (r: Self)
        ensures
            !r.has_name && !r.has_path && !r.has_layout,
    {
        MacroInputState { has_name: false, has_path: false, has_layout: false }
    }

    /// A field's identifier was read: says which value to read next, or why
    /// the input is refused (an unknown field, or one given twice).
    pub fn begin_field(&mut self, ident: &String) -> (r: Result<InputField, InputError>)
        ensures
            match field_named(ident@) {
                None => r == Err::<InputField, InputError>(InputError::UnknownField) && *final(self) == *old(self),
                Some(f) => if old(self).given(f) {
                    r == Err::<InputField, InputError>(InputError::AlreadyDefined(f)) && *final(self) == *old(self)
                } else {
                    r == Ok::<InputField, InputError>(f) && *final(self) == old(self).with(f)
                },
            },
    {
        let name = String::from_str("name");
        let path = String::from_str("path");
        let layout = String::from_str("layout");
        let field = if *ident == name {
            InputField::Name
        } else if *ident == path {
            InputField::Path
        } else if *ident == layout {
            InputField::Layout
        } else {
            return Err(InputError::UnknownField);
        };
        let given = match field {
            InputField::Name => self.has_name,
            InputField::Path => self.has_path,
            InputField::Layout => self.has_layout,
        };
        if given {
            return Err(InputError::AlreadyDefined(field));
        }
        match field {
            InputField::Name => self.has_name = true,
            InputField::Path => self.has_path = true,
            InputField::Layout => self.has_layout = true,
        }
        Ok(field)
    }

    /// A field's value was read. Refuses an input with both a layout and a
    /// path; otherwise says whether the layout is now to be read from the file
    /// at the path (it then counts as given).
    pub fn end_field(&mut self) -> (r: Result<bool, InputError>)
        ensures
            old(self).has_path && old(self).has_layout ==> r == Err::<bool, InputError>(InputError::LayoutAndPath)
                && *final(self) == *old(self),
            old(self).has_path && !old(self).has_layout ==> r == Ok::<bool, InputError>(true) && *final(self)
                == old(self).with(InputField::Layout),
            !old(self).has_path ==> r == Ok::<bool, InputError>(false) && *final(self) == *old(self),
    {
        if self.has_path && self.has_layout {
            return Err(InputError::LayoutAndPath);
        }
        if self.has_path {
            self.has_layout = true;
            return Ok(true);
        }
        Ok(false)
    }

    /// The input ended: refuses it without a layout, then without a name.
    pub fn finish(&self) -> (r: Result<(), InputError>)
        ensures
            !self.has_layout ==> r == Err::<(), InputError>(InputError::NoLayout),
            self.has_layout && !self.has_name ==> r == Err::<(), InputError>(InputError::NoName),
            self.has_layout && self.has_name ==> r is Ok,
    {
        if !self.has_layout {
            return Err(InputError::NoLayout);
        }
        if !self.has_name {
            return Err(InputError::NoName);
        }
        Ok(())
    }
}

} // verus!
