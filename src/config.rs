//! Configuration of the rendering: block sizes, output resolution and the
//! form-line thresholds.
use std::collections::HashMap;
use std::string::String;
use vstd::prelude::*;

verus! {

/// Integer coordinate units in one metre of ground.
pub const UNITS_PER_METRE: u64 = 100;

pub const DEFAULT_DEM_BLOCK_SIZE: u32 = 1;
pub const DEFAULT_VEGETATION_BLOCK_SIZE: u32 = 1;
pub const DEFAULT_DPI_RESOLUTION: u32 = 600;

/// Least relative asymmetry, in thousandths.
pub const DEFAULT_FORM_LINES_THRESHOLD: u64 = 50;
pub const DEFAULT_FORM_LINES_MIN_DISTANCE_TO_CONTOUR: u64 = 5 * UNITS_PER_METRE;
pub const DEFAULT_FORM_LINES_MAX_DISTANCE_TO_CONTOUR: u64 = 100 * UNITS_PER_METRE;
pub const DEFAULT_FORM_LINES_MIN_LENGTH: u64 = 10 * UNITS_PER_METRE;
pub const DEFAULT_FORM_LINES_MIN_GAP_LENGTH: u64 = 50 * UNITS_PER_METRE;
pub const DEFAULT_FORM_LINES_ADDITIONAL_TAIL_LENGTH: u64 = 15 * UNITS_PER_METRE;

/// Thresholds of the form-line selection. Distances are in coordinate units;
/// `threshold` is a ratio in thousandths.
#[derive(Clone, Copy, Debug, PartialEq, Eq, Structural)]
pub struct FormLineConfig {
    pub threshold: u64,
    pub min_distance_to_contour: u64,
    pub max_distance_to_contour: u64,
    pub min_length: u64,
    pub min_gap_length: u64,
    pub additional_tail_length: u64,
}

impl FormLineConfig {
    pub fn default() -> (r: Self)
        ensures
            r.threshold == DEFAULT_FORM_LINES_THRESHOLD,
            r.min_distance_to_contour == DEFAULT_FORM_LINES_MIN_DISTANCE_TO_CONTOUR,
            r.max_distance_to_contour == DEFAULT_FORM_LINES_MAX_DISTANCE_TO_CONTOUR,
            r.min_length == DEFAULT_FORM_LINES_MIN_LENGTH,
            r.min_gap_length == DEFAULT_FORM_LINES_MIN_GAP_LENGTH,
            r.additional_tail_length == DEFAULT_FORM_LINES_ADDITIONAL_TAIL_LENGTH,
    {
        FormLineConfig {
            threshold: DEFAULT_FORM_LINES_THRESHOLD,
            min_distance_to_contour: DEFAULT_FORM_LINES_MIN_DISTANCE_TO_CONTOUR,
            max_distance_to_contour: DEFAULT_FORM_LINES_MAX_DISTANCE_TO_CONTOUR,
            min_length: DEFAULT_FORM_LINES_MIN_LENGTH,
            min_gap_length: DEFAULT_FORM_LINES_MIN_GAP_LENGTH,
            additional_tail_length: DEFAULT_FORM_LINES_ADDITIONAL_TAIL_LENGTH,
        }
    }
}

pub fn default_dem_block_size() -> (r: u32)
    ensures
        r == DEFAULT_DEM_BLOCK_SIZE,
{
    DEFAULT_DEM_BLOCK_SIZE
}

pub fn default_vegetation_block_size() -> (r: u32)
    ensures
        r == DEFAULT_VEGETATION_BLOCK_SIZE,
{
    DEFAULT_VEGETATION_BLOCK_SIZE
}

pub fn default_dpi_resolution() -> (r: u32)
    ensures
        r == DEFAULT_DPI_RESOLUTION,
{
    DEFAULT_DPI_RESOLUTION
}

/// Tag filters that select map features from an OpenStreetMap extract, one per
/// map symbol.
pub struct VectorConfig {
    pub uncrossable_body_of_water_301: HashMap<String, String>,
    pub shallow_body_of_water_302: HashMap<String, String>,
    pub crossable_watercourse_304: HashMap<String, String>,
    pub small_crossable_watercourse_305: HashMap<String, String>,
    pub minor_or_seasonal_water_channel_306: HashMap<String, String>,
    pub uncrossable_marsh_307: HashMap<String, String>,
    pub marsh_308: HashMap<String, String>,
    pub cultivated_land_412: HashMap<String, String>,
    pub orchard_413: HashMap<String, String>,
    pub vineyard_414: HashMap<String, String>,
    pub paved_area_501: HashMap<String, String>,
    pub wide_road_502: HashMap<String, String>,
    pub road_503: HashMap<String, String>,
    pub vehicle_track_504: HashMap<String, String>,
    pub footpath_505: HashMap<String, String>,
    pub small_footpath_506: HashMap<String, String>,
    pub less_distinct_small_footpath_507: HashMap<String, String>,
    pub narrow_ride_508: HashMap<String, String>,
    pub railway_509: HashMap<String, String>,
    pub power_line_510: HashMap<String, String>,
    pub major_power_line_511: HashMap<String, String>,
    pub wall_513_1: HashMap<String, String>,
    pub retained_wall_513_2: HashMap<String, String>,
    pub ruined_wall_515: HashMap<String, String>,
    pub impassable_wall_515: HashMap<String, String>,
    pub fence_516: HashMap<String, String>,
    pub ruined_fence_517: HashMap<String, String>,
    pub impassable_fence_518: HashMap<String, String>,
    pub out_of_bounds_area_520: HashMap<String, String>,
    pub building_521: HashMap<String, String>,
    pub canopy_522: HashMap<String, String>,
    pub ruin_523: HashMap<String, String>,
    pub high_tower_524: HashMap<String, String>,
    pub prominent_line_feature_528: HashMap<String, String>,
    pub impassable_prominent_line_feature_529: HashMap<String, String>,
    pub stairway_532: HashMap<String, String>,
}

} // verus!
