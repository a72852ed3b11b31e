use vstd::prelude::*;

verus! {

/// Numeric codes of the parser's error kinds.
pub const ERR_OK: i32 = 0;
pub const ERR_SYNTAX: i32 = 1;
pub const ERR_IO: i32 = 2;
pub const ERR_STATE: i32 = 3;
pub const ERR_NESTED: i32 = 4;
pub const ERR_MACRO: i32 = 5;
pub const ERR_INTERNAL: i32 = 6;
pub const ERR_SSL: i32 = 7;

/// Numeric codes of the schema validator's error kinds.
pub const SCHEMA_OK: i32 = 0;
pub const SCHEMA_TYPE_MISMATCH: i32 = 1;
pub const SCHEMA_INVALID_SCHEMA: i32 = 2;
pub const SCHEMA_MISSING_PROPERTY: i32 = 3;
pub const SCHEMA_CONSTRAINT: i32 = 4;
pub const SCHEMA_MISSING_DEPENDENCY: i32 = 5;

/// Coarse kind of a parse or runtime failure.
#[derive(Clone, Copy, Debug, PartialEq, Eq, Structural)]
pub enum UclErrorType {
    NoError,
    Syntax,
    Io,
    State,
    Nested,
    Macro,
    Internal,
    SSL,
    Other,
}

/// The kind that a numeric error code stands for.
pub open spec fn error_kind_of(num: i32) -> UclErrorType {
    if num == ERR_OK {
        UclErrorType::NoError
    } else if num == ERR_SYNTAX {
        UclErrorType::Syntax
    } else if num == ERR_IO {
        UclErrorType::Io
    } else if num == ERR_STATE {
        UclErrorType::State
    } else if num == ERR_NESTED {
        UclErrorType::Nested
    } else if num == ERR_MACRO {
        UclErrorType::Macro
    } else if num == ERR_INTERNAL {
        UclErrorType::Internal
    } else if num == ERR_SSL {
        UclErrorType::SSL
    } else {
        UclErrorType::Other
    }
}

impl UclErrorType {
    /// Builds the error that a numeric code and a description stand for.
    pub fn from_code(num: i32, desc: String) -> (r: UclError)
        ensures
            r.code == error_kind_of(num),
            r.desc@ == desc@,
    {
        let code = if num == ERR_OK {
            UclErrorType::NoError
        } else if num == ERR_SYNTAX {
            UclErrorType::Syntax
        } else if num == ERR_IO {
            UclErrorType::Io
        } else if num == ERR_STATE {
            UclErrorType::State
        } else if num == ERR_NESTED {
            UclErrorType::Nested
        } else if num == ERR_MACRO {
            UclErrorType::Macro
        } else if num == ERR_INTERNAL {
            UclErrorType::Internal
        } else if num == ERR_SSL {
            UclErrorType::SSL
        } else {
            UclErrorType::Other
        };
        UclError { code, desc }
    }
}

/// A parse or runtime failure: its kind and a human-readable description.
#[derive(Clone, Debug)]
pub struct UclError {
    pub code: UclErrorType,
    pub desc: String,
}

impl UclError {
    /// The human-readable description.
    pub fn description(&self) -> (r: String)
        ensures
            r@ == self.desc@,
    {
        self.desc.clone()
    }
}

/// Classification of a schema validation failure.
#[derive(Clone, Copy, Debug, PartialEq, Eq, Structural)]
pub enum UclSchemaErrorType {
    NoError,
    TypeMismatch,
    InvalidSchema,
    MissingProperty,
    Constraint,
    MissingDependency,
    Other,
}

/// The schema error kind that a numeric code stands for.
pub open spec fn schema_kind_of(num: i32) -> UclSchemaErrorType {
    if num == SCHEMA_OK {
        UclSchemaErrorType::NoError
    } else if num == SCHEMA_TYPE_MISMATCH {
        UclSchemaErrorType::TypeMismatch
    } else if num == SCHEMA_INVALID_SCHEMA {
        UclSchemaErrorType::InvalidSchema
    } else if num == SCHEMA_MISSING_PROPERTY {
        UclSchemaErrorType::MissingProperty
    } else if num == SCHEMA_CONSTRAINT {
        UclSchemaErrorType::Constraint
    } else if num == SCHEMA_MISSING_DEPENDENCY {
        UclSchemaErrorType::MissingDependency
    } else {
        UclSchemaErrorType::Other
    }
}

impl UclSchemaErrorType {
    /// Builds the schema error that a numeric code and a description stand for.
    pub fn from_code(num: i32, desc: String) -> (r: UclSchemaError)
        ensures
            r.code == schema_kind_of(num),
            r.desc@ == desc@,
    {
        let code = if num == SCHEMA_OK {
            UclSchemaErrorType::NoError
        } else if num == SCHEMA_TYPE_MISMATCH {
            UclSchemaErrorType::TypeMismatch
        } else if num == SCHEMA_INVALID_SCHEMA {
            UclSchemaErrorType::InvalidSchema
        } else if num == SCHEMA_MISSING_PROPERTY {
            UclSchemaErrorType::MissingProperty
        } else if num == SCHEMA_CONSTRAINT {
            UclSchemaErrorType::Constraint
        } else if num == SCHEMA_MISSING_DEPENDENCY {
            UclSchemaErrorType::MissingDependency
        } else {
            UclSchemaErrorType::Other
        };
        UclSchemaError { code, desc }
    }
}

/// A schema validation failure: its classification and a description.
#[derive(Clone, Debug)]
pub struct UclSchemaError {
    pub code: UclSchemaErrorType,
    pub desc: String,
}

impl UclSchemaError {
    /// The human-readable description.
    pub fn description(&self) -> (r: String)
        ensures
            r@ == self.desc@,
    {
        self.desc.clone()
    }
}

} // verus!
