pub mod basebin;
pub mod bigendian;
pub mod roundtrip;
pub mod value;
