pub mod args;
pub mod bcd4;
pub mod bcd;
pub mod branchlut2;
pub mod countdecimaldigit;
pub mod countlut;
pub mod data;
pub mod decimal;
pub mod digits_lut;
pub mod fixed_point;
pub mod harness;
pub mod itoa_jeaiii;
pub mod itoa_ljust;
pub mod lut;
pub mod mwilson;
pub mod numbuffer;
pub mod numstr;
pub mod oracle;
pub mod registry;
pub mod timing;
pub mod unsigned;
pub mod yy;
