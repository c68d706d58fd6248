//! What an isochrone map is made of.
use vstd::prelude::*;

verus! {

/// How the area that can be reached is drawn.
#[derive(Clone, Copy, Debug, PartialEq, Eq, Structural)]
pub enum DisplayMode {
    /// A circle round every stop that can be reached.
    Circles,
    /// The outline of the area from which a stop can be reached.
    ContourLine,
}

/// The name of [`DisplayMode::Circles`].
pub open spec fn circles_name() -> Seq<char> {
    "circles"@
}

/// The name of [`DisplayMode::ContourLine`].
pub open spec fn contour_line_name() -> Seq<char> {
    "contour_line"@
}

impl DisplayMode {
    /// The mode with the given name.
    pub open spec fn named(name: Seq<char>) -> Option<DisplayMode> {
        if name == circles_name() {
            Some(DisplayMode::Circles)
        } else if name == contour_line_name() {
            Some(DisplayMode::ContourLine)
        } else {
            None
        }
    }

    /// The mode with the given name: `circles` or `contour_line`.
    pub fn from_name(name: &String) -> (mode: Option<DisplayMode>)
        ensures
            mode == Self::named(name@),
    {
        let circles = "circles".to_owned();
        let contour_line = "contour_line".to_owned();
        if *name == circles {
            Some(DisplayMode::Circles)
        } else if *name == contour_line {
            Some(DisplayMode::ContourLine)
        } else {
            None
        }
    }
}

/// The area that can be reached within a number of minutes.
#[derive(Debug)]
pub struct Isochrone {
    /// The outlines of the area, each a ring of points.
    pub polygons: Vec<Vec<hrdf_parser::Coordinates>>,
    /// Minutes.
    pub time_limit: u32,
}

impl Isochrone {
    pub fn new(polygons: Vec<Vec<hrdf_parser::Coordinates>>, time_limit: u32) -> (isochrone: Self)
        ensures
            isochrone.polygons == polygons,
            isochrone.time_limit == time_limit,
    {
        Self { polygons, time_limit }
    }
}

/// The areas that can be reached from a place within growing numbers of
/// minutes.
#[derive(Debug)]
pub struct IsochroneMap {
    /// The areas, in the order of their minutes.
    pub isochrones: Vec<Isochrone>,
    /// The place of the stop from which the journeys begin.
    pub departure_stop_coord: hrdf_parser::Coordinates,
    /// Two opposite corners of a box that holds every area.
    pub bounding_box: (hrdf_parser::Coordinates, hrdf_parser::Coordinates),
}

impl IsochroneMap {
    pub fn new(
        isochrones: Vec<Isochrone>,
        departure_stop_coord: hrdf_parser::Coordinates,
        bounding_box: (hrdf_parser::Coordinates, hrdf_parser::Coordinates),
    ) -> (map: Self)
        ensures
            map.isochrones == isochrones,
            map.departure_stop_coord == departure_stop_coord,
            map.bounding_box == bounding_box,
    {
        Self { isochrones, departure_stop_coord, bounding_box }
    }
}

} // verus!
