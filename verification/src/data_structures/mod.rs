pub mod time_series;
pub mod ts_map;
