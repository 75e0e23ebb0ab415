use vstd::prelude::*;

verus! {

/// Which embedded resources to ask the metadata service for: one, or
/// several at once.
#[derive(Clone, Debug, PartialEq)]
pub enum LinkEmbed<'a> {
    Single(&'a str),
    Multiple(Vec<&'a str>),
}

/// A show lookup by an identifier of another catalogue.
#[derive(Clone, Debug, PartialEq)]
pub enum ShowLookup<'a> {
    IMDB(&'a str),
    TheTVDB(&'a str),
    TVRage(&'a str),
}

impl<'a> ShowLookup<'a> {
    /// The query key and value this lookup contributes to a request URL.
    pub fn as_query_param(&self) -> (r: (&str, &str))
        ensures
            r.0@ == match self {
                ShowLookup::IMDB(_) => "imdb"@,
                ShowLookup::TheTVDB(_) => "thetvdb"@,
                ShowLookup::TVRage(_) => "tvrage"@,
            },
            r.1@ == match self {
                ShowLookup::IMDB(id) => id@,
                ShowLookup::TheTVDB(id) => id@,
                ShowLookup::TVRage(id) => id@,
            },
    {
        match self {
            ShowLookup::IMDB(id) => ("imdb", id),
            ShowLookup::TheTVDB(id) => ("thetvdb", id),
            ShowLookup::TVRage(id) => ("tvrage", id),
        }
    }
}

} // verus!
