use vstd::prelude::*;

use crate::kaeru::Metadata;

verus! {

/// The stream tags sent to an Icecast server for a song, in this order:
/// Title, Artist, Album, Genre and Track, each where the song has it. The
/// Genre tag carries the album name.
pub open spec fn shout_fields_spec(md: Metadata) -> Seq<(Seq<char>, Seq<char>)> {
    let t = if md.title is Some { seq![("Title"@, md.title.unwrap()@)] } else { Seq::empty() };
    let ar = if md.artist is Some { seq![("Artist"@, md.artist.unwrap()@)] } else { Seq::empty() };
    let al = if md.album is Some { seq![("Album"@, md.album.unwrap()@)] } else { Seq::empty() };
    let g = if md.album is Some { seq![("Genre"@, md.album.unwrap()@)] } else { Seq::empty() };
    let tr = if md.track is Some { seq![("Track"@, md.track.unwrap()@)] } else { Seq::empty() };
    t + ar + al + g + tr
}

pub open spec fn pairs_view(v: Seq<(String, String)>) -> Seq<(Seq<char>, Seq<char>)> {
    Seq::new(v.len(), |i: int| (v[i].0@, v[i].1@))
}

fn push_pair(v: &mut Vec<(String, String)>, key: &str, value: &String)
    ensures
        pairs_view(final(v)@) == pairs_view(old(v)@) + seq![(key@, value@)],
{
    v.push((String::from_str(key), value.clone()));
    proof {
        assert(pairs_view(v@) =~= pairs_view(old(v)@) + seq![(key@, value@)]);
    }
}

/// The tag pairs for a song (see [`shout_fields_spec`]).
pub fn shout_fields(md: &Metadata) -> (v: Vec<(String, String)>)
    ensures
        pairs_view(v@) == shout_fields_spec(*md),
{
    let mut v: Vec<(String, String)> = Vec::new();
    proof {
        assert(pairs_view(v@) =~= Seq::<(Seq<char>, Seq<char>)>::empty());
    }
    if let Some(title) = &md.title {
        push_pair(&mut v, "Title", title);
    }
    if let Some(artist) = &md.artist {
        push_pair(&mut v, "Artist", artist);
    }
    if let Some(album) = &md.album {
        push_pair(&mut v, "Album", album);
    }
    if let Some(genre) = &md.album {
        push_pair(&mut v, "Genre", genre);
    }
    if let Some(track) = &md.track {
        push_pair(&mut v, "Track", track);
    }
    proof {
        let e = Seq::<(Seq<char>, Seq<char>)>::empty();
        assert(pairs_view(v@) =~= shout_fields_spec(*md));
    }
    v
}

} // verus!
