//! The error model: one kind for transport failures, one for text that is
//! not UTF-8, one for violated framing or decoding invariants, one for
//! rejected credentials, one for a structured server error, and a fallback.
use vstd::prelude::*;

verus! {

/// The error kinds of this library, as contracts see them. Message strings
/// carried by the executable type are explanatory only and do not appear
/// here; the fields of a server error do.
pub enum ErrView {
    Io,
    Utf8,
    Protocol,
    Unauthenticated,
    Server(Seq<(u8, Seq<char>)>),
    Other,
}

/// An error raised while opening a session, decoding server messages, or
/// running a query.
#[derive(Debug, PartialEq, Eq)]
pub enum PgError {
    /// Transport failure; carries a description of the underlying cause.
    Io(String),
    /// A field that must be UTF-8 was not.
    Utf8,
    /// A framing or decoding invariant was violated.
    Protocol(String),
    /// The server rejected the credentials, or asked for an unsupported
    /// authentication method.
    Unauthenticated,
    /// A structured ErrorResponse from the server: the parsed field list,
    /// each entry a one-byte field code and its text.
    Server(Vec<(u8, String)>),
    /// Last-resort fallback for cases not otherwise classified.
    Other,
}

impl View for PgError {
    type V = ErrView;

    open spec fn view(&self) -> ErrView {
        match self {
            PgError::Io(_) => ErrView::Io,
            PgError::Utf8 => ErrView::Utf8,
            PgError::Protocol(_) => ErrView::Protocol,
            PgError::Unauthenticated => ErrView::Unauthenticated,
            PgError::Server(fields) => ErrView::Server(
                Seq::new(fields@.len(), |i: int| (fields@[i].0, fields@[i].1@)),
            ),
            PgError::Other => ErrView::Other,
        }
    }
}

/// The text of the first field with code `M` (the human-readable message)
/// in a server error's field list, or nothing when there is none.
pub open spec fn spec_server_message(fields: Seq<(u8, Seq<char>)>) -> Seq<char>
    decreases fields.len(),
{
    if fields.len() == 0 {
        Seq::empty()
    } else if fields[0].0 == 77 {
        fields[0].1
    } else {
        spec_server_message(fields.drop_first())
    }
}

impl PgError {
    /// A short description of the error: the carried text where there is
    /// one, and for a server error the text of its message field, keyed by
    /// the field code `M`.
    #[verifier::loop_isolation(false)]
    pub fn describe(&self) -> (r: String)
        ensures
            match self {
                PgError::Io(s) => r@ == s@,
                PgError::Utf8 => r@ == "invalid UTF-8 text"@,
                PgError::Protocol(s) => r@ == s@,
                PgError::Unauthenticated => r@ == "authentication failed"@,
                PgError::Server(fields) => r@ == spec_server_message(
                    Seq::new(fields@.len(), |i: int| (fields@[i].0, fields@[i].1@)),
                ),
                PgError::Other => r@ == "an unclassified error occurred"@,
            },
    {
        match self {
            PgError::Io(s) => s.clone(),
            PgError::Utf8 => "invalid UTF-8 text".to_owned(),
            PgError::Protocol(s) => s.clone(),
            PgError::Unauthenticated => "authentication failed".to_owned(),
            PgError::Server(fields) => {
                let ghost fv = Seq::new(fields@.len(), |i: int| (fields@[i].0, fields@[i].1@));
                proof {
                    assert(fv.skip(0) =~= fv);
                }
                let mut i: usize = 0;
                while i < fields.len()
                    invariant
                        i <= fields@.len(),
                        spec_server_message(fv) == spec_server_message(fv.skip(i as int)),
                        forall|j: int| 0 <= j < i ==> fv[j].0 != 77,
                    decreases fields@.len() - i,
                {
                    let field = &fields[i];
                    proof {
                        assert(fv.skip(i as int)[0] == fv[i as int]);
                        assert(fv.skip(i as int).drop_first() =~= fv.skip(i as int + 1));
                    }
                    if field.0 == 77 {
                        return field.1.clone();
                    }
                    i = i + 1;
                }
                proof {
                    assert(fv.skip(fields@.len() as int) =~= Seq::<(u8, Seq<char>)>::empty());
                }
                String::new()
            },
            PgError::Other => "an unclassified error occurred".to_owned(),
        }
    }
}

} // verus!
