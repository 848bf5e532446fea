pub mod half_edge;
pub mod polygon_soup;
pub mod wavefront;

pub use half_edge::HeMesh;
pub use polygon_soup::PolygonSoup;
pub use wavefront::ObjReader;
