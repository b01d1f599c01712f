//! A dynamically generated file offered for download under a given name.

use vstd::prelude::*;
use vstd::string::StringExecFns;

verus! {

/// A generated file that the browser downloads and saves under a chosen name.
pub struct NamedBinary {
    /// The content type of the file.
    content_type: &'static str,
    /// The name under which the file is saved.
    download_name: String,
    /// The bytes of the file.
    payload: Vec<u8>,
}

impl NamedBinary {
    pub closed spec fn spec_content_type(&self) -> Seq<char> {
        self.content_type@
    }

    pub closed spec fn spec_download_name(&self) -> Seq<char> {
        self.download_name@
    }

    pub closed spec fn spec_payload(&self) -> Seq<u8> {
        self.payload@
    }

    pub fn new(content_type: &'static str, download_name: String, payload: Vec<u8>) -> (r: NamedBinary)
        ensures
            r.spec_content_type() == content_type@,
            r.spec_download_name() == download_name@,
            r.spec_payload() == payload@,
    {
        NamedBinary { content_type, download_name, payload }
    }

    pub fn content_type(&self) -> (r: &'static str)
        ensures
            r@ == self.spec_content_type(),
    {
        self.content_type
    }

    pub fn download_name(&self) -> (r: &str)
        ensures
            r@ == self.spec_download_name(),
    {
        self.download_name.as_str()
    }

    pub fn payload(&self) -> (r: &Vec<u8>)
        ensures
            r@ == self.spec_payload(),
    {
        &self.payload
    }

    /// Takes the file apart into its content type, name and bytes.
    pub fn into_parts(self) -> (r: (&'static str, String, Vec<u8>))
        ensures
            r.0@ == self.spec_content_type(),
            r.1@ == self.spec_download_name(),
            r.2@ == self.spec_payload(),
    {
        (self.content_type, self.download_name, self.payload)
    }

    /// The value of the `Content-Disposition` header that makes the browser
    /// save the file under its name: `attachment; filename="<name>"`.
    pub fn content_disposition(&self) -> (r: String)
        ensures
            r@ == "attachment; filename=\""@ + self.spec_download_name() + "\""@,
    {
        let mut r = "attachment; filename=\"".to_owned();
        r.append(self.download_name.as_str());
        r.append("\"");
        r
    }
}

} // verus!
