use vstd::prelude::*;

verus! {

/// One reconstructed stream: its id, the fields read from its header, the
/// header and optional footer XML trees, the measured sampling rate, and the
/// samples in on-disk order with timestamps synthesized and clock-corrected.
///
/// `nominal_srate` and `measured_srate` are bit patterns of IEEE-754 doubles;
/// `nominal_srate` is absent exactly when the wire value was zero or not a
/// number.
#[derive(Debug)]
pub struct Stream {
    pub id: u32,
    pub channel_count: u32,
    pub nominal_srate: Option<u64>,
    pub format: crate::Format,
    pub name: Option<String>,
    pub content_type: Option<String>,
    pub header: xmltree::Element,
    pub footer: Option<xmltree::Element>,
    pub measured_srate: Option<u64>,
    pub samples: Vec<crate::Sample>,
}

} // verus!
