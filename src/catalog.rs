//! Configuration of the catalog that exposes segments as tables to a query
//! engine: where its tables come from, and the errors of that layer.
use vstd::prelude::*;

verus! {

/// Errors of the catalog layer.
#[derive(Debug)]
pub enum Error {
    PinotSegment(crate::error::Error),
    DataFusion(String),
    Arrow(String),
    Internal(String),
    UnsupportedFeature(String),
    HttpClient(String),
    JsonParse(String),
}

impl Error {
    /// The text of the error: its kind followed by its detail.
    pub open spec fn message_of(&self) -> Seq<char> {
        match self {
            Error::PinotSegment(e) => "Pinot segment error: "@ + e.message_of(),
            Error::DataFusion(m) => "DataFusion error: "@ + m@,
            Error::Arrow(m) => "Arrow error: "@ + m@,
            Error::Internal(m) => "Internal error: "@ + m@,
            Error::UnsupportedFeature(m) => "Unsupported feature: "@ + m@,
            Error::HttpClient(m) => "HTTP client error: "@ + m@,
            Error::JsonParse(m) => "JSON parse error: "@ + m@,
        }
    }

    /// The error rendered as text: its kind followed by its detail.
    pub fn message(&self) -> (r: String)
        ensures
            r@ == self.message_of(),
    {
        match self {
            Error::PinotSegment(e) => "Pinot segment error: ".to_owned().concat(e.message().as_str()),
            Error::DataFusion(m) => "DataFusion error: ".to_owned().concat(m.as_str()),
            Error::Arrow(m) => "Arrow error: ".to_owned().concat(m.as_str()),
            Error::Internal(m) => "Internal error: ".to_owned().concat(m.as_str()),
            Error::UnsupportedFeature(m) => "Unsupported feature: ".to_owned().concat(m.as_str()),
            Error::HttpClient(m) => "HTTP client error: ".to_owned().concat(m.as_str()),
            Error::JsonParse(m) => "JSON parse error: ".to_owned().concat(m.as_str()),
        }
    }
}

impl From<crate::error::Error> for Error {
    fn from(e: crate::error::Error) -> (r: Self)
        ensures
            r == Error::PinotSegment(e),
    {
        Error::PinotSegment(e)
    }
}

impl vstd::std_specs::convert::FromSpecImpl<crate::error::Error> for Error {
    open spec fn obeys_from_spec() -> bool {
        true
    }

    open spec fn from_spec(e: crate::error::Error) -> Self {
        Error::PinotSegment(e)
    }
}

/// Where the catalog discovers its tables.
#[derive(Debug)]
pub enum PinotCatalogSource {
    /// Scan a local data directory.
    FileSystem { data_dir: String },
    /// Ask a controller over HTTP; segment data is read from `segment_dir`.
    Controller { base_url: String, segment_dir: String },
}

/// A catalog whose source has been checked.
#[derive(Debug)]
pub struct PinotCatalog {
    pub source: PinotCatalogSource,
}

/// Builder of a catalog; `build` checks the configured source.
#[derive(Debug)]
pub struct PinotCatalogBuilder {
    pub source: Option<PinotCatalogSource>,
}

impl Default for PinotCatalogBuilder {
    fn default() -> (r: Self)
        ensures
            r.source is None,
    {
        PinotCatalogBuilder { source: None }
    }
}

/// An `Internal` error whose text is `prefix` followed by `detail`.
fn internal(prefix: &str, detail: &str) -> (e: Error)
    ensures
        e matches Error::Internal(m) && m@ == prefix@ + detail@,
{
    Error::Internal(prefix.to_owned().concat(detail))
}

/// An `Internal` error whose text is `msg`.
fn internal_text(msg: &str) -> (e: Error)
    ensures
        e matches Error::Internal(m) && m@ == msg@,
{
    Error::Internal(msg.to_owned())
}

/// Whether `e` is an `Internal` error with the text `text`.
pub open spec fn internal_with(e: Error, text: Seq<char>) -> bool {
    e matches Error::Internal(m) && m@ == text
}

/// The schemas every catalog has: only `default`.
pub fn default_schema_names() -> (r: Vec<String>)
    ensures
        r@.len() == 1,
        r@[0]@ == "default"@,
{
    let mut v: Vec<String> = Vec::new();
    v.push("default".to_owned());
    v
}

/// Whether `name` is the name of a catalog's schema.
pub fn is_schema_name(name: &str) -> (r: bool)
    ensures
        r == (name@ == "default"@),
{
    name.to_owned() == "default".to_owned()
}

impl PinotCatalog {
    /// A catalog over the data directory `data_dir`; `dir_exists` tells
    /// whether that directory exists.
    pub fn new(data_dir: String, dir_exists: bool) -> (r: Result<PinotCatalog, Error>)
        ensures
            r is Ok <==> dir_exists,
            r matches Ok(c) ==> (c.source matches PinotCatalogSource::FileSystem { data_dir: d } && d
                == data_dir),
            r matches Err(e) ==> internal_with(e, "Data directory does not exist: "@ + data_dir@),
    {
        PinotCatalogBuilder::default().filesystem(data_dir).build(dir_exists)
    }

    /// A builder with no source yet.
    pub fn builder() -> (r: PinotCatalogBuilder)
        ensures
            r.source is None,
    {
        PinotCatalogBuilder::default()
    }

    /// The schemas of the catalog: only `default`.
    pub fn schema_names(&self) -> (r: Vec<String>)
        ensures
            r@.len() == 1,
            r@[0]@ == "default"@,
    {
        default_schema_names()
    }

    /// Whether the catalog has a schema called `name`.
    pub fn has_schema(&self, name: &str) -> (r: bool)
        ensures
            r == (name@ == "default"@),
    {
        is_schema_name(name)
    }
}

impl PinotCatalogBuilder {
    /// Discover tables by scanning `data_dir`.
    pub fn filesystem(self, data_dir: String) -> (r: Self)
        ensures
            r.source matches Some(PinotCatalogSource::FileSystem { data_dir: d }) && d == data_dir,
    {
        PinotCatalogBuilder { source: Some(PinotCatalogSource::FileSystem { data_dir }) }
    }

    /// Discover tables through the controller at `base_url`, keeping a
    /// segment directory given before.
    pub fn controller(self, base_url: String) -> (r: Self)
        ensures
            r.source matches Some(PinotCatalogSource::Controller { base_url: u, segment_dir: s }) && u
                == base_url && s@ == (match self.source {
                Some(PinotCatalogSource::Controller { segment_dir, .. }) => segment_dir@,
                _ => Seq::<char>::empty(),
            }),
    {
        let segment_dir = match self.source {
            Some(PinotCatalogSource::Controller { segment_dir, .. }) => segment_dir,
            _ => String::new(),
        };
        PinotCatalogBuilder { source: Some(PinotCatalogSource::Controller { base_url, segment_dir }) }
    }

    /// Read segment data from `dir` in controller mode, keeping a controller
    /// URL given before.
    pub fn with_segment_dir(self, dir: String) -> (r: Self)
        ensures
            r.source matches Some(PinotCatalogSource::Controller { base_url: u, segment_dir: s }) && s
                == dir && u@ == (match self.source {
                Some(PinotCatalogSource::Controller { base_url, .. }) => base_url@,
                _ => Seq::<char>::empty(),
            }),
    {
        let base_url = match self.source {
            Some(PinotCatalogSource::Controller { base_url, .. }) => base_url,
            _ => String::new(),
        };
        PinotCatalogBuilder { source: Some(PinotCatalogSource::Controller { base_url, segment_dir: dir }) }
    }

    /// The directory whose existence `build` checks: the data directory, or
    /// the segment directory in controller mode.
    pub fn directory(&self) -> (r: Option<&String>)
        ensures
            match self.source {
                Some(PinotCatalogSource::FileSystem { data_dir }) => r == Some(&data_dir),
                Some(PinotCatalogSource::Controller { segment_dir, .. }) => r == Some(&segment_dir),
                None => r is None,
            },
    {
        match &self.source {
            Some(PinotCatalogSource::FileSystem { data_dir }) => Some(data_dir),
            Some(PinotCatalogSource::Controller { segment_dir, .. }) => Some(segment_dir),
            None => None,
        }
    }

    /// Checks the configured source; `dir_exists` tells whether the directory
    /// named by `directory()` exists.
    pub fn build(self, dir_exists: bool) -> (r: Result<PinotCatalog, Error>)
        ensures
            match self.source {
                None => r matches Err(e) && internal_with(e, "No catalog source configured"@),
                Some(PinotCatalogSource::FileSystem { data_dir }) => if dir_exists {
                    r matches Ok(c) && (c.source matches PinotCatalogSource::FileSystem {
                        data_dir: d,
                    } && d == data_dir)
                } else {
                    r matches Err(e) && internal_with(
                        e,
                        "Data directory does not exist: "@ + data_dir@,
                    )
                },
                Some(PinotCatalogSource::Controller { base_url, segment_dir }) => if base_url@.len()
                    == 0 {
                    r matches Err(e) && internal_with(e, "Controller URL not specified"@)
                } else if segment_dir@.len() == 0 {
                    r matches Err(e) && internal_with(e, "Segment directory not specified"@)
                } else if !dir_exists {
                    r matches Err(e) && internal_with(
                        e,
                        "Segment directory does not exist: "@ + segment_dir@,
                    )
                } else {
                    r matches Ok(c) && (c.source matches PinotCatalogSource::Controller {
                        base_url: u,
                        segment_dir: s,
                    } && u == base_url && s == segment_dir)
                },
            },
    {
        match self.source {
            None => Err(internal_text("No catalog source configured")),
            Some(PinotCatalogSource::FileSystem { data_dir }) => {
                if !dir_exists {
                    return Err(internal("Data directory does not exist: ", data_dir.as_str()));
                }
                Ok(PinotCatalog { source: PinotCatalogSource::FileSystem { data_dir } })
            },
            Some(PinotCatalogSource::Controller { base_url, segment_dir }) => {
                if base_url.as_str().is_empty() {
                    return Err(internal_text("Controller URL not specified"));
                }
                if segment_dir.as_str().is_empty() {
                    return Err(internal_text("Segment directory not specified"));
                }
                if !dir_exists {
                    return Err(
                        internal("Segment directory does not exist: ", segment_dir.as_str()),
                    );
                }
                Ok(PinotCatalog { source: PinotCatalogSource::Controller { base_url, segment_dir } })
            },
        }
    }
}

} // verus!
