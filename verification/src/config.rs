//! Settings: the plants that can be looked after, and what is the same for all of them.

use vstd::prelude::*;
use vstd::string::*;

use crate::text::same_text;

verus! {

/// Settings of one plant, selected at startup.
#[derive(Debug, Clone, Copy)]
pub struct PlantConfig {
    /// Lowercase identifier (logs, command line, image files)
    pub name: &'static str,
    /// Shown in the dashboard
    pub display_name: &'static str,
    /// Where the node connects to
    pub bind_addr: &'static str,
    /// Where the dashboard is served
    pub http_addr: &'static str,
    pub csv_path: &'static str,
    pub auto_water_interval_secs: i64,
    pub auto_water_duration_s: u16,
}

/// Watered every two weeks.
pub open spec fn is_yucca(p: PlantConfig) -> bool {
    &&& p.name@ == "yucca"@
    &&& p.display_name@ == "Yucca palm"@
    &&& p.bind_addr@ == "0.0.0.0:5000"@
    &&& p.http_addr@ == "0.0.0.0:8080"@
    &&& p.csv_path@ == "yucca_log.csv"@
    &&& p.auto_water_interval_secs == 14 * 24 * 3600
    &&& p.auto_water_duration_s == 22
}

/// Watered every ten days, slightly more often than the yucca: same pot, same fill.
pub open spec fn is_monstera(p: PlantConfig) -> bool {
    &&& p.name@ == "monstera"@
    &&& p.display_name@ == "Monstera"@
    &&& p.bind_addr@ == "0.0.0.0:5001"@
    &&& p.http_addr@ == "0.0.0.0:8081"@
    &&& p.csv_path@ == "monstera_log.csv"@
    &&& p.auto_water_interval_secs == 10 * 24 * 3600
    &&& p.auto_water_duration_s == 22
}

/// The settings of the yucca.
pub fn yucca() -> (plant: PlantConfig)
    ensures
        is_yucca(plant),
{
    PlantConfig {
        name: "yucca",
        display_name: "Yucca palm",
        bind_addr: "0.0.0.0:5000",
        http_addr: "0.0.0.0:8080",
        csv_path: "yucca_log.csv",
        auto_water_interval_secs: 14 * 24 * 3600,
        auto_water_duration_s: 22,
    }
}

/// The settings of the monstera.
pub fn monstera() -> (plant: PlantConfig)
    ensures
        is_monstera(plant),
{
    PlantConfig {
        name: "monstera",
        display_name: "Monstera",
        bind_addr: "0.0.0.0:5001",
        http_addr: "0.0.0.0:8081",
        csv_path: "monstera_log.csv",
        auto_water_interval_secs: 10 * 24 * 3600,
        auto_water_duration_s: 22,
    }
}

/// Selects the plant by the first argument behind the program's name: `--yucca` or
/// `--monstera`. Without one of these there is no plant.
pub fn from_args(args: &Vec<String>) -> (plant: Option<PlantConfig>)
    ensures
        match plant {
            Some(p) => args@.len() > 1 && {
                ||| args@[1]@ == "--yucca"@ && is_yucca(p)
                ||| args@[1]@ == "--monstera"@ && is_monstera(p)
            },
            None => args@.len() <= 1 || (args@[1]@ != "--yucca"@ && args@[1]@ != "--monstera"@),
        },
{
    if args.len() <= 1 {
        None
    } else if same_text(&args[1], "--yucca") {
        Some(yucca())
    } else if same_text(&args[1], "--monstera") {
        Some(monstera())
    } else {
        None
    }
}

/// How a plant looks, from too much water to too little; `Original` is the plain picture.
#[derive(Debug, Clone, Copy, PartialEq, Eq, Structural)]
pub enum ImageLevel {
    Drenched,
    Wet,
    Happy,
    Dry,
    Parched,
    Original,
}

impl ImageLevel {
    /// The level's part of a file name.
    pub open spec fn name(self) -> Seq<char> {
        match self {
            ImageLevel::Drenched => "drenched"@,
            ImageLevel::Wet => "wet"@,
            ImageLevel::Happy => "happy"@,
            ImageLevel::Dry => "dry"@,
            ImageLevel::Parched => "parched"@,
            ImageLevel::Original => "original"@,
        }
    }
}

impl PlantConfig {
    /// Where the picture of the plant at a level lives: `pics/{name}_{level}.png`.
    pub fn image_path(&self, level: ImageLevel) -> (path: String)
        ensures
            path@ == "pics/"@ + self.name@ + "_"@ + level.name() + ".png"@,
    {
        let mut path = "pics/".to_owned();
        path.append(self.name);
        path.append("_");
        path.append(
            match level {
                ImageLevel::Drenched => "drenched",
                ImageLevel::Wet => "wet",
                ImageLevel::Happy => "happy",
                ImageLevel::Dry => "dry",
                ImageLevel::Parched => "parched",
                ImageLevel::Original => "original",
            },
        );
        path.append(".png");
        path
    }
}

/// How long a node may stay silent before it counts as offline. The server's socket uses
/// the same limit, so a stalled session is torn down as the dashboard flips to "offline".
/// A node sends about once a minute.
pub const LIVENESS_SECS: u64 = 10 * 60;

/// How long raw readings are kept verbatim.
pub const RAW_WINDOW_SECS: i64 = 30 * 60;

/// How long entries are kept in memory.
pub const RETAIN_SECS: i64 = 14 * 24 * 3600;

} // verus!
