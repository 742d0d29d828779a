//! What a typed-deserialization layer needs of the parser: the next
//! value as an event, and the steps through the elements of a
//! container. The layer itself lives outside this library.

pub mod de;
