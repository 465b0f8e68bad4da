//! The content-type strings the server emits.
use vstd::prelude::*;
use vstd::string::*;

verus! {

pub open spec fn spec_plain() -> Seq<u8> {
    "text/plain".spec_bytes()
}

pub open spec fn spec_html() -> Seq<u8> {
    "text/html".spec_bytes()
}

pub open spec fn spec_jpeg() -> Seq<u8> {
    "image/jpeg".spec_bytes()
}

pub open spec fn spec_png() -> Seq<u8> {
    "image/png".spec_bytes()
}

pub open spec fn spec_icon() -> Seq<u8> {
    "image/vnd.microsoft.icon".spec_bytes()
}

pub open spec fn spec_json() -> Seq<u8> {
    "application/json".spec_bytes()
}

pub fn plain() -> (r: Vec<u8>)
    ensures
        r@ == spec_plain(),
{
    "text/plain".as_bytes_vec()
}

pub fn html() -> (r: Vec<u8>)
    ensures
        r@ == spec_html(),
{
    "text/html".as_bytes_vec()
}

pub fn jpeg() -> (r: Vec<u8>)
    ensures
        r@ == spec_jpeg(),
{
    "image/jpeg".as_bytes_vec()
}

pub fn png() -> (r: Vec<u8>)
    ensures
        r@ == spec_png(),
{
    "image/png".as_bytes_vec()
}

pub fn icon() -> (r: Vec<u8>)
    ensures
        r@ == spec_icon(),
{
    "image/vnd.microsoft.icon".as_bytes_vec()
}

pub fn json() -> (r: Vec<u8>)
    ensures
        r@ == spec_json(),
{
    "application/json".as_bytes_vec()
}

} // verus!
