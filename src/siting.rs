//! The per-footprint pipeline: the lot that holds a building, the labelled
//! edges of that lot, the building's clearance to each, and its zoning district.
use vstd::prelude::*;
use crate::edges::{classified_lot, classify, Edge};
use crate::geometry::{MultiPolygon, Pt, exterior_vertices};
use crate::index::{GeometryError, SpatialIndex};
use crate::neighbors::get_zoning;
use crate::setback::{SetbackMeasurement, compute, setbacks_of};

verus! {

/// Where a building footprint stands.
#[derive(Clone, Debug)]
pub struct FootprintSiting {
    /// The lot record that covers the footprint's centroid.
    pub lot: Option<usize>,
    /// The labelled edges of that lot.
    pub edges: Option<Vec<Edge>>,
    /// The footprint's clearance to each of those edges, in the same order.
    pub setbacks: Option<Vec<SetbackMeasurement>>,
    /// The zoning record that covers the footprint's centroid.
    pub zoning: Option<usize>,
}

/// Sites a building footprint whose centroid is `c`: finds the lot and the zoning
/// district that cover the centroid, labels the lot's edges and measures the
/// footprint's clearance to each. Fails on a footprint without vertices.
pub fn site_footprint<L, Z>(
    lots: &SpatialIndex<L>,
    zoning: &SpatialIndex<Z>,
    footprint: &MultiPolygon,
    c: Pt,
) -> (r: Result<FootprintSiting, GeometryError>)
    requires
        lots.wf(),
        zoning.wf(),
        footprint.wf(),
        c.wf(),
    ensures
        r is Err <==> footprint.exterior_vertices().len() == 0,
        r matches Err(e) ==> e == GeometryError::DegenerateGeometry,
        r matches Ok(s) ==> {
            &&& lots.located(c, s.lot)
            &&& zoning.located(c, s.zoning)
            &&& s.lot is None ==> s.edges is None && s.setbacks is None
            &&& s.lot matches Some(i) ==> {
                &&& s.edges matches Some(e) && e@ == classified_lot(
                    *lots,
                    lots.records@[i as int].multi_polygon,
                )
                &&& s.setbacks matches Some(m) && setbacks_of(
                    classified_lot(*lots, lots.records@[i as int].multi_polygon),
                    *footprint,
                    m@,
                )
            }
        },
{
    let vs = exterior_vertices(footprint);
    if vs.len() == 0 {
        return Err(GeometryError::DegenerateGeometry);
    }
    let zone = get_zoning(zoning, c);
    let lot = lots.locate_at_point(c);
    match lot {
        None => Ok(FootprintSiting { lot: None, edges: None, setbacks: None, zoning: zone }),
        Some(i) => {
            let w = lots.record(i);
            assert(w.wf());
            let edges = classify(&w.multi_polygon, lots);
            proof {
                crate::edges::lemma_classified_lot_wf(*lots, w.multi_polygon);
                assert(crate::setback::edges_wf(edges@));
            }
            match compute(&edges, footprint) {
                Err(e) => Err(e),
                Ok(m) => Ok(
                    FootprintSiting { lot: Some(i), edges: Some(edges), setbacks: Some(m), zoning: zone },
                ),
            }
        },
    }
}

} // verus!
