//! URLs: how the engine is configured, where it is advertised, and where its
//! object store is.

use vstd::prelude::*;

verus! {

/// The parts of a URL that the engine reads.
#[derive(Debug, PartialEq, Eq)]
pub struct Address {
    pub scheme: String,
    pub host: Option<String>,
    /// The port, unless it is its scheme's own.
    pub port: Option<u16>,
    pub path: String,
    pub query: Option<String>,
}

/// What an optional text says.
pub open spec fn maybe_text(text: Option<String>) -> Option<Seq<char>> {
    match text {
        Some(text) => Some(text@),
        None => None,
    }
}

impl View for Address {
    type V = (Seq<char>, Option<Seq<char>>, Option<u16>, Seq<char>, Option<Seq<char>>);

    open spec fn view(&self) -> (
        Seq<char>,
        Option<Seq<char>>,
        Option<u16>,
        Seq<char>,
        Option<Seq<char>>,
    ) {
        (self.scheme@, maybe_text(self.host), self.port, self.path@, maybe_text(self.query))
    }
}

/// What a text says as a URL: scheme, host, port, path and query; or why it is
/// none.
pub uninterp spec fn url_of(text: Seq<char>) -> core::result::Result<
    (Seq<char>, Option<Seq<char>>, Option<u16>, Seq<char>, Option<Seq<char>>),
    Seq<char>,
>;

/// `url::Url::parse`, with its result's parts moved out one by one, or its
/// error as text: both depend on the text alone. The grammar of URLs, and what
/// the error says, are left unsaid.
#[verifier::external_body]
fn parse_url(text: &str) -> (result: core::result::Result<Address, String>)
    ensures
        match result {
            Ok(address) => url_of(text@) == core::result::Result::<
                (Seq<char>, Option<Seq<char>>, Option<u16>, Seq<char>, Option<Seq<char>>),
                Seq<char>,
            >::Ok(address@),
            Err(reason) => url_of(text@) == core::result::Result::<
                (Seq<char>, Option<Seq<char>>, Option<u16>, Seq<char>, Option<Seq<char>>),
                Seq<char>,
            >::Err(reason@),
        },
{
    url::Url::parse(text).map_err(|error| error.to_string()).map(
        |url| Address {
            scheme: url.scheme().to_owned(),
            host: url.host_str().map(str::to_owned),
            port: url.port(),
            path: url.path().to_owned(),
            query: url.query().map(str::to_owned),
        },
    )
}

/// The pairs that a query string holds.
pub uninterp spec fn query_pairs_of(query: Seq<char>) -> Seq<(Seq<char>, Seq<char>)>;

/// What a list of pairs says.
pub open spec fn pairs_view(pairs: Seq<(String, String)>) -> Seq<(Seq<char>, Seq<char>)> {
    Seq::new(pairs.len(), |i: int| (pairs[i].0@, pairs[i].1@))
}

/// `url::form_urlencoded::parse`, which decodes a query string's pairs in
/// their order: they depend on the query alone. The decoding is left unsaid.
#[verifier::external_body]
fn form_pairs(query: &str) -> (pairs: Vec<(String, String)>)
    ensures
        pairs_view(pairs@) == query_pairs_of(query@),
{
    url::form_urlencoded::parse(query.as_bytes()).into_owned().collect()
}

impl Address {
    /// Reads a URL; its error says why a text is none.
    pub fn parse(text: &str) -> (result: core::result::Result<Address, String>)
        ensures
            match result {
                Ok(address) => url_of(text@) matches Ok(parts) && parts == address@,
                Err(reason) => url_of(text@) matches Err(why) && why == reason@,
            },
    {
        parse_url(text)
    }

    /// The pairs of the query.
    pub fn query_pairs(&self) -> (pairs: Vec<(String, String)>)
        ensures
            pairs_view(pairs@) == query_pairs_of(
                match self@.4 {
                    Some(query) => query,
                    None => ""@,
                },
            ),
    {
        match &self.query {
            Some(query) => form_pairs(query.as_str()),
            None => form_pairs(""),
        }
    }

    /// The host to be reached at, `0.0.0.0` where none is given.
    pub fn listen_host(&self) -> (host: String)
        ensures
            host@ == (match self@.1 {
                Some(host) => host,
                None => "0.0.0.0"@,
            }),
    {
        match &self.host {
            Some(host) => host.clone(),
            None => "0.0.0.0".to_owned(),
        }
    }

    /// The port to be reached at, 9092 where none is given.
    pub fn listen_port(&self) -> (port: i32)
        ensures
            port == (match self@.2 {
                Some(port) => port as int,
                None => 9092int,
            }),
    {
        match self.port {
            Some(port) => port as i32,
            None => 9092,
        }
    }
}

} // verus!
