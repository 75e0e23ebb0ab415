use vstd::prelude::*;

verus! {

/// The parameters of a search request.
#[derive(Clone, Debug, PartialEq)]
pub struct Search {
    pub q: String,
}

/// The parameters of a request to add a show by its provider identifier.
#[derive(Clone, Debug, PartialEq)]
pub struct AddShow {
    pub id: String,
}

/// The parameters of a request for one stored show.
#[derive(Clone, Copy, Debug, PartialEq, Eq, Structural)]
pub struct GetShow {
    pub id: i32,
}

} // verus!
