pub mod veg_jumbo_87;
